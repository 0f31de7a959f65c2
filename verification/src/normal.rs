use crate::ordered::{collect, lemma_collect_keeps, lemma_collect_unique};
use crate::variant::{
    lemma_all_values_well_formed, lemma_all_well_formed, well_formed, VariantView,
};
use vstd::prelude::*;

verus! {

/// `value` with every mapping in it built anew from its entries in their
/// order, so that of the entries under one key the last is left, where it
/// stands among those that are left.
pub open spec fn normalized(value: VariantView) -> VariantView
    decreases value,
{
    match value {
        VariantView::Option(Some(inner)) => VariantView::Option(Some(Box::new(normalized(*inner)))),
        VariantView::NewtypeStruct(name, inner) => VariantView::NewtypeStruct(
            name,
            Box::new(normalized(*inner)),
        ),
        VariantView::Array(items) => VariantView::Array(normalized_items(items)),
        VariantView::Mapping(entries) => VariantView::Mapping(collect(normalized_entries(entries))),
        _ => value,
    }
}

/// The normal forms of the items of a sequence, one for one.
pub open spec fn normalized_items(items: Seq<VariantView>) -> Seq<VariantView>
    decreases items,
{
    if items.len() == 0 {
        Seq::empty()
    } else {
        normalized_items(items.drop_last()).push(normalized(items.last()))
    }
}

/// The entries of a mapping with the normal form of each value, one for
/// one.
pub open spec fn normalized_entries(entries: Seq<(Seq<char>, VariantView)>) -> Seq<
    (Seq<char>, VariantView),
>
    decreases entries,
{
    if entries.len() == 0 {
        Seq::empty()
    } else {
        normalized_entries(entries.drop_last()).push(
            (entries.last().0, normalized(entries.last().1)),
        )
    }
}

/// The normal forms of items are as many as the items, and stand at the
/// same positions.
pub proof fn lemma_normalized_items(items: Seq<VariantView>)
    ensures
        normalized_items(items).len() == items.len(),
        forall|i: int|
            0 <= i < items.len() ==> #[trigger] normalized_items(items)[i] == normalized(items[i]),
    decreases items.len(),
{
    if items.len() > 0 {
        lemma_normalized_items(items.drop_last());
    }
}

/// The entries with normal values are as many as the entries, and stand at
/// the same positions under the same keys.
pub proof fn lemma_normalized_entries(entries: Seq<(Seq<char>, VariantView)>)
    ensures
        normalized_entries(entries).len() == entries.len(),
        forall|i: int|
            0 <= i < entries.len() ==> #[trigger] normalized_entries(entries)[i] == (
                entries[i].0,
                normalized(entries[i].1),
            ),
    decreases entries.len(),
{
    if entries.len() > 0 {
        lemma_normalized_entries(entries.drop_last());
    }
}

/// A well-formed value is its own normal form.
pub proof fn lemma_well_formed_is_normal(value: VariantView)
    requires
        well_formed(value),
    ensures
        normalized(value) == value,
    decreases value,
{
    match value {
        VariantView::Option(Some(inner)) => {
            lemma_well_formed_is_normal(*inner);
        },
        VariantView::NewtypeStruct(_, inner) => {
            lemma_well_formed_is_normal(*inner);
        },
        VariantView::Array(items) => {
            lemma_normalized_items(items);
            lemma_all_well_formed(items);
            assert forall|i: int| 0 <= i < items.len() implies normalized_items(items)[i]
                == items[i] by {
                lemma_well_formed_is_normal(items[i]);
            }
            assert(normalized_items(items) =~= items);
        },
        VariantView::Mapping(entries) => {
            lemma_normalized_entries(entries);
            lemma_all_values_well_formed(entries);
            assert forall|i: int| 0 <= i < entries.len() implies normalized_entries(entries)[i]
                == entries[i] by {
                lemma_well_formed_is_normal(entries[i].1);
            }
            assert(normalized_entries(entries) =~= entries);
            lemma_collect_keeps(entries);
        },
        _ => {},
    }
}

/// The normal form of any value is well formed.
pub proof fn lemma_normal_is_well_formed(value: VariantView)
    ensures
        well_formed(normalized(value)),
    decreases value,
{
    match value {
        VariantView::Option(Some(inner)) => {
            lemma_normal_is_well_formed(*inner);
        },
        VariantView::NewtypeStruct(_, inner) => {
            lemma_normal_is_well_formed(*inner);
        },
        VariantView::Array(items) => {
            lemma_normalized_items(items);
            assert forall|i: int| 0 <= i < items.len() implies well_formed(
                #[trigger] normalized_items(items)[i],
            ) by {
                lemma_normal_is_well_formed(items[i]);
            }
            lemma_all_well_formed(normalized_items(items));
        },
        VariantView::Mapping(entries) => {
            let given = normalized_entries(entries);
            let left = collect(given);
            lemma_normalized_entries(entries);
            lemma_collect_unique(given);
            assert forall|i: int| 0 <= i < left.len() implies well_formed((#[trigger] left[i]).1) by {
                assert(given.contains(left[i]));
                let j = choose|j: int| 0 <= j < given.len() && given[j] == left[i];
                lemma_normal_is_well_formed(entries[j].1);
            }
            lemma_all_values_well_formed(left);
        },
        _ => {},
    }
}

} // verus!
