//! The shared dictionary of field names and the metadata blob it becomes.
use crate::encoding::{int_size, int_size_spec, le_array, le_bytes, write_offset, extend_bytes};
use crate::encoding::{lemma_le_array_push};
use crate::names::{compare_names, name_lt};
use indexmap::IndexSet;
use vstd::prelude::*;
use vstd::utf8::encode_utf8;

verus! {

/// indexmap's `IndexSet`, held opaquely: the dictionary's names live in one.
#[verifier::external_type_specification]
#[verifier::external_body]
#[verifier::reject_recursive_types(T)]
#[verifier::reject_recursive_types(S)]
pub struct ExIndexSet<T, S>(IndexSet<T, S>);

/// The names an `IndexSet<String>` holds, in its order.
pub uninterp spec fn set_names(s: IndexSet<String>) -> Seq<Seq<char>>;

/// Relies on `IndexSet::new`: a new set is empty.
#[verifier::external_body]
fn set_new() -> (r: IndexSet<String>)
    ensures
        set_names(r) == Seq::<Seq<char>>::empty(),
{
    IndexSet::new()
}

/// Relies on `IndexSet::insert_full`: an equal item keeps its index and
/// leaves the set as it was; a new item goes last.
#[verifier::external_body]
fn set_insert_full(s: &mut IndexSet<String>, value: String) -> (r: (usize, bool))
    ensures
        set_names(*old(s)).contains(value@) ==> {
            &&& !r.1
            &&& set_names(*final(s)) == set_names(*old(s))
            &&& r.0 < set_names(*old(s)).len()
            &&& set_names(*old(s))[r.0 as int] == value@
        },
        !set_names(*old(s)).contains(value@) ==> {
            &&& r.1
            &&& r.0 == set_names(*old(s)).len()
            &&& set_names(*final(s)) == set_names(*old(s)).push(value@)
        },
{
    s.insert_full(value)
}

/// Relies on `IndexSet::len`: the number of items.
#[verifier::external_body]
fn set_len(s: &IndexSet<String>) -> (r: usize)
    ensures
        r == set_names(*s).len(),
{
    s.len()
}

/// Relies on indexing an `IndexSet`: the item at position `i`.
#[verifier::external_body]
fn set_get(s: &IndexSet<String>, i: usize) -> (r: &String)
    requires
        i < set_names(*s).len(),
    ensures
        r@ == set_names(*s)[i as int],
{
    &s[i]
}

/// Relies on `IndexSet::get_index_of`: the position of an equal item, if any.
#[verifier::external_body]
fn set_get_index_of(s: &IndexSet<String>, value: &str) -> (r: Option<usize>)
    ensures
        r matches Some(i) ==> i < set_names(*s).len() && set_names(*s)[i as int] == value@,
        r is None ==> !set_names(*s).contains(value@),
{
    s.get_index_of(value)
}

/// Relies on `IndexSet::reserve`: capacity changes, the items do not.
#[verifier::external_body]
fn set_reserve(s: &mut IndexSet<String>, additional: usize)
    ensures
        set_names(*final(s)) == set_names(*old(s)),
{
    s.reserve(additional)
}

/// The dictionary after `name` is inserted, if it was not there.
pub open spec fn upsert_names(names: Seq<Seq<char>>, name: Seq<char>) -> Seq<Seq<char>> {
    if names.contains(name) {
        names
    } else {
        names.push(name)
    }
}

/// Whether insertion order is strictly ascending; an empty dictionary counts as unsorted.
pub open spec fn sorted_flag(names: Seq<Seq<char>>) -> bool {
    names.len() >= 1 && forall|i: int|
        #![trigger names[i]]
        1 <= i < names.len() ==> name_lt(names[i - 1], names[i])
}

/// Total number of UTF-8 bytes of the names.
pub open spec fn total_name_bytes(names: Seq<Seq<char>>) -> nat
    decreases names.len(),
{
    if names.len() == 0 {
        0
    } else {
        total_name_bytes(names.drop_last()) + encode_utf8(names.last()).len()
    }
}

/// The names' UTF-8 bytes, concatenated.
pub open spec fn names_data(names: Seq<Seq<char>>) -> Seq<u8>
    decreases names.len(),
{
    if names.len() == 0 {
        Seq::empty()
    } else {
        names_data(names.drop_last()) + encode_utf8(names.last())
    }
}

/// Start of each name in the string data, then the total length.
pub open spec fn name_offsets(names: Seq<Seq<char>>) -> Seq<nat> {
    Seq::new((names.len() + 1) as nat, |i: int| total_name_bytes(names.subrange(0, i)))
}

/// The larger of `a` and `b`.
pub open spec fn max_nat(a: nat, b: nat) -> nat {
    if a >= b {
        a
    } else {
        b
    }
}

/// Width of the dictionary size and of each offset in the metadata blob.
pub open spec fn metadata_offset_size(names: Seq<Seq<char>>) -> nat {
    int_size_spec(max_nat(total_name_bytes(names), names.len()))
}

/// Header byte: version 1, the sorted bit, and the offset width.
pub open spec fn metadata_header(sorted: bool, offset_size: nat) -> u8 {
    (1 + (if sorted { 16nat } else { 0nat }) + (offset_size - 1) * 64) as u8
}

/// The metadata blob of a dictionary.
pub open spec fn metadata_blob(names: Seq<Seq<char>>, sorted: bool) -> Seq<u8> {
    let os = metadata_offset_size(names);
    seq![metadata_header(sorted, os)] + le_bytes(names.len(), os) + le_array(name_offsets(names), os)
        + names_data(names)
}

/// Insertion-ordered set of distinct field names; the ID of a name is its position.
pub struct MetadataBuilder {
    field_names: IndexSet<String>,
    is_sorted: bool,
    metadata_buffer: Vec<u8>,
}

impl MetadataBuilder {
    /// The names, in ID order.
    pub closed spec fn names(&self) -> Seq<Seq<char>> {
        set_names(self.field_names)
    }

    /// The sorted flag that the blob will carry.
    pub closed spec fn sorted(&self) -> bool {
        self.is_sorted
    }

    /// Bytes that come before the blob in the buffer that `finish` returns.
    pub closed spec fn prefix(&self) -> Seq<u8> {
        self.metadata_buffer@
    }

    /// Names are distinct, the sorted flag matches them, and IDs fit in 32 bits.
    pub open spec fn wf(&self) -> bool {
        &&& self.names().no_duplicates()
        &&& self.sorted() == sorted_flag(self.names())
        &&& self.names().len() <= u32::MAX
    }

    /// An empty dictionary; the blob will be written after `metadata_buffer`.
    pub fn from_buffer(metadata_buffer: Vec<u8>) -> (r: MetadataBuilder)
        ensures
            r.wf(),
            r.names() == Seq::<Seq<char>>::empty(),
            r.prefix() == metadata_buffer@,
    {
        MetadataBuilder { field_names: set_new(), is_sorted: false, metadata_buffer }
    }

    /// An empty dictionary writing to a new buffer.
    pub fn new() -> (r: MetadataBuilder)
        ensures
            r.wf(),
            r.names() == Seq::<Seq<char>>::empty(),
            r.prefix() == Seq::<u8>::empty(),
    {
        Self::from_buffer(Vec::new())
    }

    /// Returns the ID of `field_name`, appending it first if it is new.
    pub fn upsert_field_name(&mut self, field_name: &str) -> (r: u32)
        requires
            old(self).wf(),
            old(self).names().len() < u32::MAX || old(self).names().contains(field_name@),
        ensures
            final(self).wf(),
            final(self).names() == upsert_names(old(self).names(), field_name@),
            final(self).prefix() == old(self).prefix(),
            r < final(self).names().len(),
            final(self).names()[r as int] == field_name@,
    {
        let ghost old_names = self.names();
        let (id, new_entry) = set_insert_full(&mut self.field_names, field_name.to_owned());
        if new_entry {
            let n = set_len(&self.field_names);
            if n == 1 {
                self.is_sorted = true;
            } else {
                let prev = set_get(&self.field_names, n - 2);
                let less = matches!(compare_names(prev.as_str(), field_name), core::cmp::Ordering::Less);
                self.is_sorted = self.is_sorted && less;
            }
            proof {
                let ns = self.names();
                assert(ns == old_names.push(field_name@));
                assert forall|i: int, j: int| 0 <= i < j < ns.len() implies ns[i] != ns[j] by {
                    if j == ns.len() - 1 {
                        if ns[i] == ns[j] {
                            assert(old_names[i] == field_name@);
                        }
                    } else {
                        assert(old_names[i] == ns[i] && old_names[j] == ns[j]);
                    }
                }
                if n > 1 {
                    assert(ns[n - 2] == old_names[n - 2]);
                    if sorted_flag(ns) {
                        assert(name_lt(ns[n as int - 2], ns[n as int - 1]));
                        assert forall|i: int| 1 <= i < old_names.len() implies name_lt(
                            old_names[i - 1],
                            #[trigger] old_names[i],
                        ) by {
                            assert(ns[i] == old_names[i] && ns[i - 1] == old_names[i - 1]);
                        }
                    }
                    if self.is_sorted {
                        assert forall|i: int| 1 <= i < ns.len() implies name_lt(
                            ns[i - 1],
                            #[trigger] ns[i],
                        ) by {
                            if i < ns.len() - 1 {
                                assert(ns[i] == old_names[i] && ns[i - 1] == old_names[i - 1]);
                            }
                        }
                    }
                }
            }
        }
        id as u32
    }

    /// Number of names in the dictionary.
    pub fn num_field_names(&self) -> (r: usize)
        requires
            self.wf(),
        ensures
            r == self.names().len(),
    {
        set_len(&self.field_names)
    }

    /// The name with ID `i`.
    pub fn field_name(&self, i: usize) -> (r: &str)
        requires
            i < self.names().len(),
        ensures
            r@ == self.names()[i as int],
    {
        set_get(&self.field_names, i).as_str()
    }

    /// Compares the names with IDs `a` and `b`.
    pub fn compare_field_ids(&self, a: u32, b: u32) -> (r: core::cmp::Ordering)
        requires
            (a as nat) < self.names().len(),
            (b as nat) < self.names().len(),
        ensures
            r == core::cmp::Ordering::Less <==> name_lt(self.names()[a as int], self.names()[b as int]),
            r == core::cmp::Ordering::Greater <==> name_lt(self.names()[b as int], self.names()[a as int]),
            r == core::cmp::Ordering::Equal <==> self.names()[a as int] == self.names()[b as int],
    {
        compare_names(self.field_name(a as usize), self.field_name(b as usize))
    }

    /// Whether the names, in ID order, are strictly ascending.
    pub fn is_sorted(&self) -> (r: bool)
        ensures
            r == self.sorted(),
    {
        self.is_sorted
    }

    /// ID of `field_name`, if the dictionary holds it.
    pub fn field_id(&self, field_name: &str) -> (r: Option<usize>)
        ensures
            r matches Some(i) ==> i < self.names().len() && self.names()[i as int] == field_name@,
            r is None ==> !self.names().contains(field_name@),
    {
        set_get_index_of(&self.field_names, field_name)
    }

    /// Makes room for `additional` more names without changing the dictionary.
    pub fn reserve(&mut self, additional: usize)
        ensures
            final(self).names() == old(self).names(),
            final(self).sorted() == old(self).sorted(),
            final(self).prefix() == old(self).prefix(),
    {
        set_reserve(&mut self.field_names, additional);
    }

    /// Every name of `names`, in order, upserted as by `upsert_field_name`.
    pub fn extend(&mut self, names: &[&str])
        requires
            old(self).wf(),
            old(self).names().len() + names@.len() <= u32::MAX,
        ensures
            final(self).wf(),
            final(self).names() == upsert_all(old(self).names(), names@.map_values(|s: &str| s@)),
            final(self).prefix() == old(self).prefix(),
    {
        let ghost start = self.names();
        let ghost all = names@.map_values(|s: &str| s@);
        let mut i: usize = 0;
        while i < names.len()
            invariant
                i <= names@.len(),
                all == names@.map_values(|s: &str| s@),
                self.wf(),
                self.names() == upsert_all(start, all.subrange(0, i as int)),
                self.names().len() <= start.len() + i,
                start.len() + names@.len() <= u32::MAX,
                self.prefix() == old(self).prefix(),
            decreases names@.len() - i,
        {
            self.upsert_field_name(names[i]);
            proof {
                assert(all.subrange(0, i + 1).drop_last() == all.subrange(0, i as int));
                assert(all.subrange(0, i + 1).last() == names@[i as int]@);
            }
            i = i + 1;
        }
        assert(all.subrange(0, names@.len() as int) == all);
    }

    /// A dictionary holding `names`, each upserted in order.
    pub fn from_names(names: &[&str]) -> (r: MetadataBuilder)
        requires
            names@.len() <= u32::MAX,
        ensures
            r.wf(),
            r.names() == upsert_all(Seq::empty(), names@.map_values(|s: &str| s@)),
            r.prefix() == Seq::<u8>::empty(),
    {
        let mut r = Self::new();
        r.extend(names);
        r
    }

    /// Total number of UTF-8 bytes of the names.
    pub fn metadata_size(&self) -> (r: usize)
        requires
            self.wf(),
            total_name_bytes(self.names()) <= usize::MAX,
        ensures
            r == total_name_bytes(self.names()),
    {
        let n = set_len(&self.field_names);
        let mut total: usize = 0;
        let mut i: usize = 0;
        while i < n
            invariant
                i <= n,
                n == self.names().len(),
                total == total_name_bytes(self.names().subrange(0, i as int)),
                total_name_bytes(self.names()) <= usize::MAX,
            decreases n - i,
        {
            let key = set_get(&self.field_names, i);
            proof {
                lemma_total_name_bytes_prefix(self.names(), i as int + 1);
                assert(self.names().subrange(0, i + 1).drop_last() == self.names().subrange(0, i as int));
            }
            total = total + key.as_str().len();
            i = i + 1;
        }
        assert(self.names().subrange(0, n as int) == self.names());
        total
    }

    /// The metadata blob, written after the buffer's earlier bytes.
    pub fn finish(self) -> (r: Vec<u8>)
        requires
            self.wf(),
            total_name_bytes(self.names()) <= usize::MAX,
        ensures
            r@ == self.prefix() + metadata_blob(self.names(), self.sorted()),
    {
        let ghost names = self.names();
        let nkeys = self.num_field_names();
        let total_dict_size = self.metadata_size();
        let MetadataBuilder { field_names, is_sorted, metadata_buffer } = self;
        let mut metadata_buffer = metadata_buffer;
        let max_offset = if total_dict_size >= nkeys { total_dict_size } else { nkeys };
        let offset_size = int_size(max_offset);
        let ghost os = offset_size as nat;
        let sorted_bit: u8 = if is_sorted { 16 } else { 0 };
        metadata_buffer.push(1 + sorted_bit + (offset_size - 1) * 64);
        write_offset(&mut metadata_buffer, nkeys, offset_size);
        write_name_offsets(&mut metadata_buffer, &field_names, offset_size);
        write_names_data(&mut metadata_buffer, &field_names);
        metadata_buffer
    }
}

/// Writes the start of each name in the string data, then their total length.
fn write_name_offsets(buf: &mut Vec<u8>, field_names: &IndexSet<String>, offset_size: u8)
    requires
        total_name_bytes(set_names(*field_names)) <= usize::MAX,
    ensures
        final(buf)@ == old(buf)@ + le_array(name_offsets(set_names(*field_names)), offset_size as nat),
{
    let ghost names = set_names(*field_names);
    let ghost os = offset_size as nat;
    let ghost head = buf@;
    let ghost offs = name_offsets(names);
    let nkeys = set_len(field_names);
    let mut cur_offset: usize = 0;
    let mut i: usize = 0;
    while i < nkeys
        invariant
            i <= nkeys,
            nkeys == names.len(),
            names == set_names(*field_names),
            offs == name_offsets(names),
            cur_offset == total_name_bytes(names.subrange(0, i as int)),
            total_name_bytes(names) <= usize::MAX,
            buf@ == head + le_array(offs.subrange(0, i as int), os),
            os == offset_size as nat,
        decreases nkeys - i,
    {
        write_offset(buf, cur_offset, offset_size);
        let key = set_get(field_names, i);
        proof {
            lemma_total_name_bytes_prefix(names, i as int + 1);
            assert(names.subrange(0, i + 1).drop_last() == names.subrange(0, i as int));
            assert(offs.subrange(0, i + 1) == offs.subrange(0, i as int).push(offs[i as int]));
            lemma_le_array_push(offs.subrange(0, i as int), offs[i as int], os);
        }
        cur_offset = cur_offset + key.as_str().len();
        i = i + 1;
    }
    write_offset(buf, cur_offset, offset_size);
    proof {
        assert(names.subrange(0, nkeys as int) == names);
        assert(offs.subrange(0, nkeys + 1) == offs.subrange(0, nkeys as int).push(
            offs[nkeys as int],
        ));
        lemma_le_array_push(offs.subrange(0, nkeys as int), offs[nkeys as int], os);
        assert(offs.subrange(0, nkeys + 1) == offs);
    }
}

/// Writes the names' UTF-8 bytes, one after another.
fn write_names_data(buf: &mut Vec<u8>, field_names: &IndexSet<String>)
    ensures
        final(buf)@ == old(buf)@ + names_data(set_names(*field_names)),
{
    let ghost names = set_names(*field_names);
    let ghost table = buf@;
    let nkeys = set_len(field_names);
    let mut j: usize = 0;
    while j < nkeys
        invariant
            j <= nkeys,
            nkeys == names.len(),
            names == set_names(*field_names),
            buf@ == table + names_data(names.subrange(0, j as int)),
        decreases nkeys - j,
    {
        let key = set_get(field_names, j);
        extend_bytes(buf, key.as_str().as_bytes());
        proof {
            assert(names.subrange(0, j + 1).drop_last() == names.subrange(0, j as int));
        }
        j = j + 1;
    }
    proof {
        assert(names.subrange(0, nkeys as int) == names);
    }
}

/// The dictionary after each of `new_names` is upserted, in order.
pub open spec fn upsert_all(names: Seq<Seq<char>>, new_names: Seq<Seq<char>>) -> Seq<Seq<char>>
    decreases new_names.len(),
{
    if new_names.len() == 0 {
        names
    } else {
        upsert_names(upsert_all(names, new_names.drop_last()), new_names.last())
    }
}

proof fn lemma_total_name_bytes_prefix(names: Seq<Seq<char>>, k: int)
    requires
        0 <= k <= names.len(),
    ensures
        total_name_bytes(names.subrange(0, k)) <= total_name_bytes(names),
    decreases names.len(),
{
    if k < names.len() {
        assert(names.drop_last().subrange(0, k) == names.subrange(0, k));
        lemma_total_name_bytes_prefix(names.drop_last(), k);
    } else {
        assert(names.subrange(0, k) == names);
    }
}

} // verus!
