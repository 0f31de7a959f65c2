use crate::ordered::{
    collect, entry_views, into_entries, lemma_entry_views_put, lemma_entry_views_unique,
    lemma_put_keeps, lemma_put_unique, map_entries, map_insert, map_with_capacity, presize,
    unique_keys,
};
use crate::text::same_text;
use vstd::prelude::*;

verus! {

/// A value of any of the kinds that the supported formats can carry.
///
/// Floating-point payloads are held as their IEEE 754 bit patterns, so that a
/// value is carried bit for bit. A mapping holds its entries in insertion
/// order; see [`Variant::wf`] for what makes a value well formed.
#[derive(Debug, PartialEq)]
pub enum Variant {
    Bool(bool),
    I8(i8),
    I16(i16),
    I32(i32),
    I64(i64),
    I128(i128),
    U8(u8),
    U16(u16),
    U32(u32),
    U64(u64),
    U128(u128),
    F32(u32),
    F64(u64),
    Char(char),
    Str(String),
    Bytes(Vec<u8>),
    Option(Option<Box<Variant>>),
    Unit,
    NewtypeStruct(String, Box<Variant>),
    Array(Vec<Variant>),
    Mapping(Vec<(String, Variant)>),
}

/// The mathematical value that a [`Variant`] stands for.
pub enum VariantView {
    Bool(bool),
    I8(i8),
    I16(i16),
    I32(i32),
    I64(i64),
    I128(i128),
    U8(u8),
    U16(u16),
    U32(u32),
    U64(u64),
    U128(u128),
    F32(u32),
    F64(u64),
    Char(char),
    Str(Seq<char>),
    Bytes(Seq<u8>),
    Option(Option<Box<VariantView>>),
    Unit,
    NewtypeStruct(Seq<char>, Box<VariantView>),
    Array(Seq<VariantView>),
    Mapping(Seq<(Seq<char>, VariantView)>),
}

/// The value that `value` stands for.
pub open spec fn view_of(value: Variant) -> VariantView
    decreases value,
{
    match value {
        Variant::Bool(v) => VariantView::Bool(v),
        Variant::I8(v) => VariantView::I8(v),
        Variant::I16(v) => VariantView::I16(v),
        Variant::I32(v) => VariantView::I32(v),
        Variant::I64(v) => VariantView::I64(v),
        Variant::I128(v) => VariantView::I128(v),
        Variant::U8(v) => VariantView::U8(v),
        Variant::U16(v) => VariantView::U16(v),
        Variant::U32(v) => VariantView::U32(v),
        Variant::U64(v) => VariantView::U64(v),
        Variant::U128(v) => VariantView::U128(v),
        Variant::F32(v) => VariantView::F32(v),
        Variant::F64(v) => VariantView::F64(v),
        Variant::Char(v) => VariantView::Char(v),
        Variant::Str(v) => VariantView::Str(v@),
        Variant::Bytes(v) => VariantView::Bytes(v@),
        Variant::Option(None) => VariantView::Option(None),
        Variant::Option(Some(inner)) => VariantView::Option(Some(Box::new(view_of(*inner)))),
        Variant::Unit => VariantView::Unit,
        Variant::NewtypeStruct(name, inner) => VariantView::NewtypeStruct(
            name@,
            Box::new(view_of(*inner)),
        ),
        Variant::Array(items) => VariantView::Array(views_of_items(items@)),
        Variant::Mapping(entries) => VariantView::Mapping(views_of_entries(entries@)),
    }
}

/// The values that the items of a sequence stand for, one for one.
pub open spec fn views_of_items(items: Seq<Variant>) -> Seq<VariantView>
    decreases items,
{
    if items.len() == 0 {
        Seq::empty()
    } else {
        views_of_items(items.drop_last()).push(view_of(items.last()))
    }
}

/// The keys and values that the entries of a mapping stand for, one for one.
pub open spec fn views_of_entries(entries: Seq<(String, Variant)>) -> Seq<(Seq<char>, VariantView)>
    decreases entries,
{
    if entries.len() == 0 {
        Seq::empty()
    } else {
        views_of_entries(entries.drop_last()).push((entries.last().0@, view_of(entries.last().1)))
    }
}

impl View for Variant {
    type V = VariantView;

    open spec fn view(&self) -> VariantView {
        view_of(*self)
    }
}

/// The view of a sequence of items has one view for each item, in order.
pub proof fn lemma_views_of_items(items: Seq<Variant>)
    ensures
        views_of_items(items).len() == items.len(),
        forall|i: int| 0 <= i < items.len() ==> #[trigger] views_of_items(items)[i] == items[i]@,
    decreases items.len(),
{
    if items.len() > 0 {
        lemma_views_of_items(items.drop_last());
    }
}

/// The view of the entries of a mapping has one pair for each entry, in order.
pub proof fn lemma_views_of_entries(entries: Seq<(String, Variant)>)
    ensures
        views_of_entries(entries).len() == entries.len(),
        forall|i: int|
            0 <= i < entries.len() ==> #[trigger] views_of_entries(entries)[i] == (
                entries[i].0@,
                entries[i].1@,
            ),
    decreases entries.len(),
{
    if entries.len() > 0 {
        lemma_views_of_entries(entries.drop_last());
    }
}

/// Every mapping in `value`, at any depth, has unique keys.
pub open spec fn well_formed(value: VariantView) -> bool
    decreases value,
{
    match value {
        VariantView::Option(Some(inner)) => well_formed(*inner),
        VariantView::NewtypeStruct(_, inner) => well_formed(*inner),
        VariantView::Array(items) => all_well_formed(items),
        VariantView::Mapping(entries) => unique_keys(entries) && all_values_well_formed(entries),
        _ => true,
    }
}

/// Every one of `items` is well formed.
pub open spec fn all_well_formed(items: Seq<VariantView>) -> bool
    decreases items,
{
    items.len() == 0 || (all_well_formed(items.drop_last()) && well_formed(items.last()))
}

/// The value of every one of `entries` is well formed.
pub open spec fn all_values_well_formed(entries: Seq<(Seq<char>, VariantView)>) -> bool
    decreases entries,
{
    entries.len() == 0 || (all_values_well_formed(entries.drop_last()) && well_formed(
        entries.last().1,
    ))
}

/// Items are all well formed if and only if each of them is.
pub proof fn lemma_all_well_formed(items: Seq<VariantView>)
    ensures
        all_well_formed(items) <==> forall|i: int|
            0 <= i < items.len() ==> well_formed(#[trigger] items[i]),
    decreases items.len(),
{
    if items.len() > 0 {
        let front = items.drop_last();
        lemma_all_well_formed(front);
        if all_well_formed(items) {
            assert forall|i: int| 0 <= i < items.len() implies well_formed(#[trigger] items[i]) by {
                if i < front.len() {
                    assert(front[i] == items[i]);
                }
            }
        }
        if forall|i: int| 0 <= i < items.len() ==> well_formed(#[trigger] items[i]) {
            assert forall|i: int| 0 <= i < front.len() implies well_formed(#[trigger] front[i]) by {
                assert(front[i] == items[i]);
            }
            assert(well_formed(items[items.len() - 1]));
        }
    }
}

/// The values of entries are all well formed if and only if each of them
/// is.
pub proof fn lemma_all_values_well_formed(entries: Seq<(Seq<char>, VariantView)>)
    ensures
        all_values_well_formed(entries) <==> forall|i: int|
            0 <= i < entries.len() ==> well_formed((#[trigger] entries[i]).1),
    decreases entries.len(),
{
    if entries.len() > 0 {
        let front = entries.drop_last();
        lemma_all_values_well_formed(front);
        if all_values_well_formed(entries) {
            assert forall|i: int| 0 <= i < entries.len() implies well_formed(
                (#[trigger] entries[i]).1,
            ) by {
                if i < front.len() {
                    assert(front[i] == entries[i]);
                }
            }
        }
        if forall|i: int| 0 <= i < entries.len() ==> well_formed((#[trigger] entries[i]).1) {
            assert forall|i: int| 0 <= i < front.len() implies well_formed(
                (#[trigger] front[i]).1,
            ) by {
                assert(front[i] == entries[i]);
            }
            assert(well_formed(entries[entries.len() - 1].1));
        }
    }
}

/// Whether no two of `entries` have the same key.
#[verifier::loop_isolation(false)]
fn keys_are_unique(entries: &Vec<(String, Variant)>) -> (unique: bool)
    ensures
        unique == unique_keys(views_of_entries(entries@)),
{
    proof {
        lemma_views_of_entries(entries@);
    }
    let ghost keys = views_of_entries(entries@);
    let mut j: usize = 0;
    while j < entries.len()
        invariant
            j <= entries.len(),
            keys == views_of_entries(entries@),
            keys.len() == entries.len(),
            forall|k: int| 0 <= k < entries.len() ==> (#[trigger] keys[k]).0 == entries[k].0@,
            forall|a: int, b: int| 0 <= a < b < j ==> (#[trigger] keys[a]).0 != (#[trigger] keys[b]).0,
        decreases entries.len() - j,
    {
        let mut i: usize = 0;
        while i < j
            invariant
                i <= j < entries.len(),
                keys.len() == entries.len(),
                forall|k: int| 0 <= k < entries.len() ==> (#[trigger] keys[k]).0 == entries[k].0@,
                forall|a: int| 0 <= a < i ==> (#[trigger] keys[a]).0 != keys[j as int].0,
            decreases j - i,
        {
            if same_text(entries[i].0.as_str(), entries[j].0.as_str()) {
                assert(keys[i as int].0 == keys[j as int].0);
                return false;
            }
            i += 1;
        }
        j += 1;
    }
    true
}

impl Variant {
    /// The invariant of a value: the keys of every mapping in it are unique.
    ///
    /// Decoding gives well-formed values only. A value built by hand is well
    /// formed if no mapping in it repeats a key.
    pub open spec fn wf(&self) -> bool {
        well_formed(self@)
    }

    /// Whether the value is well formed.
    #[verifier::loop_isolation(false)]
    pub fn is_well_formed(&self) -> (ok: bool)
        ensures
            ok == self.wf(),
        decreases self,
    {
        match self {
            Variant::Option(Some(inner)) => inner.is_well_formed(),
            Variant::NewtypeStruct(_, inner) => inner.is_well_formed(),
            Variant::Array(items) => {
                proof {
                    lemma_views_of_items(items@);
                    lemma_all_well_formed(views_of_items(items@));
                }
                let mut i: usize = 0;
                while i < items.len()
                    invariant
                        i <= items.len(),
                        forall|k: int| 0 <= k < i ==> (#[trigger] items[k]).wf(),
                    decreases items.len() - i,
                {
                    if !items[i].is_well_formed() {
                        assert(!well_formed(views_of_items(items@)[i as int]));
                        return false;
                    }
                    i += 1;
                }
                true
            },
            Variant::Mapping(entries) => {
                proof {
                    lemma_views_of_entries(entries@);
                    lemma_all_values_well_formed(views_of_entries(entries@));
                }
                if !keys_are_unique(entries) {
                    return false;
                }
                let mut i: usize = 0;
                while i < entries.len()
                    invariant
                        i <= entries.len(),
                        forall|k: int| 0 <= k < i ==> (#[trigger] entries[k]).1.wf(),
                    decreases entries.len() - i,
                {
                    if !entries[i].1.is_well_formed() {
                        assert(!well_formed(views_of_entries(entries@)[i as int].1));
                        return false;
                    }
                    i += 1;
                }
                true
            },
            _ => true,
        }
    }

    /// Builds a mapping from entries given in order. A key that comes again
    /// replaces the entry that had it, and its entry stands last.
    pub fn mapping(entries: Vec<(String, Variant)>) -> (value: Variant)
        ensures
            value@ == VariantView::Mapping(collect(views_of_entries(entries@))),
            (forall|k: int| 0 <= k < entries.len() ==> (#[trigger] entries[k]).1.wf())
                ==> value.wf(),
    {
        let ghost given = entries@;
        let mut map = map_with_capacity(presize(Some(entries.len())));
        assert(entry_views(map_entries(map)) =~= Seq::empty());
        assert(given.take(0) =~= Seq::empty());
        for entry in iter: entries
            invariant
                iter.seq() == given,
                entry_views(map_entries(map)) == collect(
                    views_of_entries(given.take(iter.index() as int)),
                ),
                unique_keys(map_entries(map)),
                (forall|k: int| 0 <= k < given.len() ==> (#[trigger] given[k]).1.wf()) ==> (forall|
                    k: int,
                | 0 <= k < map_entries(map).len() ==> (#[trigger] map_entries(map)[k]).1.wf()),
        {
            let (key, value) = entry;
            proof {
                let i = iter.index() as int;
                let next = given.take(i + 1);
                assert(next.drop_last() =~= given.take(i));
                assert(next.last() == given[i]);
                let read = views_of_entries(given.take(i));
                assert(views_of_entries(next) == read.push((key@, value@)));
                assert(read.push((key@, value@)).drop_last() =~= read);
                lemma_entry_views_put(map_entries(map), key@, value);
                lemma_put_unique(map_entries(map), key@, value);
                if forall|k: int| 0 <= k < given.len() ==> (#[trigger] given[k]).1.wf() {
                    lemma_put_keeps(map_entries(map), key@, value);
                }
            }
            map_insert(&mut map, key, value);
        }
        proof {
            assert(given.take(given.len() as int) =~= given);
            lemma_entry_views_unique(map_entries(map));
        }
        let entries = into_entries(map);
        proof {
            lemma_views_of_entries(entries@);
            lemma_all_values_well_formed(views_of_entries(entries@));
        }
        Variant::Mapping(entries)
    }
}

} // verus!
