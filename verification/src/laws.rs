//! Laws of the settings tree, stated over the model and proved once for
//! every tree. Atomicity of `set` — on failure the tree is exactly as it was
//! — is part of `Node::set`'s own contract and needs no separate statement.

use vstd::prelude::*;

verus! {

use crate::Error;
use crate::model::{
    KindV, FieldV, NodeV, valid_value, wf, fields_wf, items_wf, leaf_count, fields_count,
    items_count, entries, fields_entries, items_entries, prefix_entries, leaf_paths, set_spec,
    get_spec, field_at, index_of, lemma_field_at, lemma_field_at_found, join_path, split_path,
    split_ne, dec_digits, digits_val, all_digits, is_digit, SLASH, D0,
};
use crate::text::lemma_first_slash_at;

/// Splitting a joined path peels off exactly the joined segment, for any
/// nonempty segment free of separators.
pub proof fn lemma_split_join(name: Seq<u8>, p: Seq<u8>)
    requires
        name.len() > 0,
        !name.contains(SLASH),
    ensures
        split_path(join_path(name, p)) == seq![name] + split_path(p),
{
    if p.len() == 0 {
        lemma_first_slash_at(name, name.len() as int);
        assert(split_ne(name) == seq![name]);
        assert(seq![name] + split_path(p) =~= seq![name]);
    } else {
        let w = name + seq![SLASH] + p;
        assert forall|j: int| 0 <= j < name.len() implies w[j] != SLASH by {
            assert(w[j] == name[j]);
        }
        assert(w[name.len() as int] == SLASH);
        lemma_first_slash_at(w, name.len() as int);
        assert(w.subrange(0, name.len() as int) =~= name);
        assert(w.subrange(name.len() as int + 1, w.len() as int) =~= p);
        assert(split_ne(w) == seq![name] + split_ne(p));
    }
}

/// A rendered index is all digits and reads back as its own value.
pub proof fn lemma_dec_digits(i: nat)
    ensures
        dec_digits(i).len() > 0,
        all_digits(dec_digits(i)),
        digits_val(dec_digits(i)) == i,
        !dec_digits(i).contains(SLASH),
        index_of(dec_digits(i)) == Some(i),
    decreases i,
{
    if i < 10 {
        let d = dec_digits(i);
        assert(d == seq![(D0 + i) as u8]);
        assert(d.drop_last() =~= Seq::<u8>::empty());
        assert(digits_val(Seq::<u8>::empty()) == 0);
        assert(d.len() == 1 && d.last() == (D0 + i) as u8);
        assert(digits_val(d) == digits_val(d.drop_last()) * 10 + (d.last() - D0) as nat);
        assert(digits_val(d) == i);
        assert forall|j: int| 0 <= j < d.len() implies is_digit(#[trigger] d[j]) by {}
        assert(forall|j: int| 0 <= j < d.len() ==> d[j] != SLASH);
    } else {
        lemma_dec_digits(i / 10);
        let a = dec_digits(i / 10);
        let d = a.push((D0 + i % 10) as u8);
        assert(dec_digits(i) == d);
        assert(d.drop_last() =~= a);
        assert(d.last() == (D0 + i % 10) as u8);
        assert(digits_val(d) == digits_val(a) * 10 + (i % 10));
        assert(digits_val(a) * 10 + i % 10 == i) by (nonlinear_arith)
            requires
                digits_val(a) == i / 10,
        ;
        assert forall|j: int| 0 <= j < d.len() implies is_digit(#[trigger] d[j]) by {
            if j < a.len() {
                assert(d[j] == a[j]);
                assert(is_digit(a[j]));
            }
        }
        assert(forall|j: int| 0 <= j < d.len() ==> d[j] != SLASH);
    }
}

/// Under `fields_wf` every field from `i` on is itself well-formed and has
/// a nonempty, separator-free name.
pub proof fn lemma_fields_wf_at(fs: Seq<FieldV>, i: int, j: int)
    requires
        fields_wf(fs, i),
        0 <= i <= j < fs.len(),
    ensures
        wf(fs[j].node),
        fs[j].name.len() > 0,
        !fs[j].name.contains(SLASH),
    decreases j - i,
{
    if i < j {
        lemma_fields_wf_at(fs, i + 1, j);
    }
}

pub proof fn lemma_items_wf_at(items: Seq<NodeV>, i: int, j: int)
    requires
        items_wf(items, i),
        0 <= i <= j < items.len(),
    ensures
        wf(items[j]),
    decreases j - i,
{
    if i < j {
        lemma_items_wf_at(items, i + 1, j);
    }
}

/// Writing a leaf and reading it back yields exactly the bytes written: if
/// `set` accepts `v` along a path, `get` along the same path returns `v`.
pub proof fn lemma_set_get_roundtrip(n: NodeV, segs: Seq<Seq<u8>>, v: Seq<u8>, n2: NodeV)
    requires
        set_spec(n, segs, v) == Result::<NodeV, Error>::Ok(n2),
    ensures
        get_spec(n2, segs) == Result::<Seq<u8>, Error>::Ok(v),
    decreases segs.len(),
{
    match n {
        NodeV::Leaf(..) => {},
        NodeV::Atomic(..) => {},
        NodeV::Record(fs) => {
            let name = segs[0];
            let j = field_at(fs, name);
            lemma_field_at_found(fs, name);
            let c = set_spec(fs[j].node, segs.drop_first(), v).unwrap();
            let fs2 = fs.update(j, FieldV { name: fs[j].name, node: c });
            lemma_field_at_same_names(fs, fs2, name);
            assert(field_at(fs2, name) == j);
            lemma_set_get_roundtrip(fs[j].node, segs.drop_first(), v, c);
        },
        NodeV::Array(items) => {
            let i = index_of(segs[0]).unwrap() as int;
            let c = set_spec(items[i], segs.drop_first(), v).unwrap();
            lemma_set_get_roundtrip(items[i], segs.drop_first(), v, c);
        },
    }
}

/// `field_at` looks only at the names: two field sequences with the same
/// names in the same places resolve every name alike.
pub proof fn lemma_field_at_same_names(fs: Seq<FieldV>, fs2: Seq<FieldV>, name: Seq<u8>)
    requires
        fs.len() == fs2.len(),
        forall|m: int| 0 <= m < fs.len() ==> fs[m].name == #[trigger] fs2[m].name,
    ensures
        field_at(fs, name) == field_at(fs2, name),
    decreases fs.len(),
{
    if fs.len() > 0 {
        assert(fs[0].name == fs2[0].name);
        lemma_field_at_same_names(fs.drop_first(), fs2.drop_first(), name);
        assert forall|m: int| 0 <= m < fs.drop_first().len() implies fs.drop_first()[m].name
            == #[trigger] fs2.drop_first()[m].name by {
            assert(fs2.drop_first()[m] == fs2[m + 1]);
        }
    }
}

/// The enumeration is complete in number: a tree yields exactly as many
/// paths as it has leaves.
pub proof fn lemma_paths_count(n: NodeV)
    ensures
        leaf_paths(n).len() == leaf_count(n),
    decreases n,
{
    lemma_entries_count(n);
}

pub proof fn lemma_entries_count(n: NodeV)
    ensures
        entries(n).len() == leaf_count(n),
    decreases n,
{
    match n {
        NodeV::Leaf(..) => {},
        NodeV::Atomic(..) => {},
        NodeV::Record(fs) => {
            lemma_fields_entries_count(fs, 0);
        },
        NodeV::Array(items) => {
            lemma_items_entries_count(items, 0);
        },
    }
}

pub proof fn lemma_fields_entries_count(fs: Seq<FieldV>, i: int)
    ensures
        fields_entries(fs, i).len() == fields_count(fs, i),
    decreases fs, fs.len() - i,
{
    if 0 <= i < fs.len() {
        lemma_entries_count(fs[i].node);
        lemma_fields_entries_count(fs, i + 1);
    }
}

pub proof fn lemma_items_entries_count(items: Seq<NodeV>, i: int)
    ensures
        items_entries(items, i).len() == items_count(items, i),
    decreases items, items.len() - i,
{
    if 0 <= i < items.len() {
        lemma_entries_count(items[i]);
        lemma_items_entries_count(items, i + 1);
    }
}

/// Array indexing on an array of leaves: a one-segment set fails with
/// `BadIndex` exactly when the segment is no base-ten index or lies at or
/// beyond the array's length.
pub proof fn lemma_array_bad_index(items: Seq<NodeV>, seg: Seq<u8>, v: Seq<u8>)
    requires
        forall|i: int|
            0 <= i < items.len() ==> (#[trigger] items[i]) matches NodeV::Leaf(..)
                || items[i] matches NodeV::Atomic(..),
    ensures
        set_spec(NodeV::Array(items), seq![seg], v) == Result::<NodeV, Error>::Err(Error::BadIndex)
            <==> match index_of(seg) {
            Option::Some(k) => k >= items.len(),
            Option::None => true,
        },
{
    let segs = seq![seg];
    assert(segs.len() == 1 && segs[0] == seg);
    match index_of(seg) {
        Option::None => {},
        Option::Some(k) => {
            if k < items.len() {
                assert(segs.drop_first() =~= Seq::<Seq<u8>>::empty());
                assert(items[k as int] matches NodeV::Leaf(..) || items[k as int]
                    matches NodeV::Atomic(..));
                let inner = set_spec(items[k as int], segs.drop_first(), v);
                match items[k as int] {
                    NodeV::Leaf(lk, _) => {
                        assert(inner == if valid_value(lk, v) {
                            Result::<NodeV, Error>::Ok(NodeV::Leaf(lk, v))
                        } else {
                            Result::<NodeV, Error>::Err(Error::DecodeError)
                        });
                    },
                    NodeV::Atomic(lk, _) => {
                        assert(inner == if valid_value(lk, v) {
                            Result::<NodeV, Error>::Ok(NodeV::Atomic(lk, v))
                        } else {
                            Result::<NodeV, Error>::Err(Error::DecodeError)
                        });
                    },
                    _ => {},
                }
                assert(set_spec(NodeV::Array(items), segs, v) != Result::<NodeV, Error>::Err(
                    Error::BadIndex,
                ));
            }
        },
    }
}

/// Atomic subtrees end the path: any segments beyond an atomic node fail
/// with `PathTooLong`, for writing and for reading alike.
pub proof fn lemma_atomic_path_too_long(k: KindV, val: Seq<u8>, segs: Seq<Seq<u8>>, v: Seq<u8>)
    requires
        segs.len() > 0,
    ensures
        set_spec(NodeV::Atomic(k, val), segs, v) == Result::<NodeV, Error>::Err(Error::PathTooLong),
        get_spec(NodeV::Atomic(k, val), segs) == Result::<Seq<u8>, Error>::Err(Error::PathTooLong),
{
}


/// The enumeration is sound: on a well-formed tree, every enumerated path
/// reads back exactly the value the enumeration pairs with it, and `set`
/// accepts that path with that same serialized value.
pub proof fn lemma_enumeration_sound(n: NodeV)
    requires
        wf(n),
    ensures
        forall|m: int|
            0 <= m < entries(n).len() ==> {
                &&& get_spec(n, split_path((#[trigger] entries(n)[m]).0)) == Result::<
                    Seq<u8>,
                    Error,
                >::Ok(entries(n)[m].1)
                &&& set_spec(n, split_path(entries(n)[m].0), entries(n)[m].1) is Ok
            },
    decreases n,
{
    match n {
        NodeV::Leaf(k, v) => {
            assert(entries(n)[0] == (Seq::<u8>::empty(), v));
            assert(split_path(Seq::<u8>::empty()) =~= Seq::<Seq<u8>>::empty());
        },
        NodeV::Atomic(k, v) => {
            assert(entries(n)[0] == (Seq::<u8>::empty(), v));
            assert(split_path(Seq::<u8>::empty()) =~= Seq::<Seq<u8>>::empty());
        },
        NodeV::Record(fs) => {
            lemma_record_enumeration_sound(fs, 0);
        },
        NodeV::Array(items) => {
            lemma_array_enumeration_sound(items, 0);
        },
    }
}

pub proof fn lemma_record_enumeration_sound(fs: Seq<FieldV>, i: int)
    requires
        wf(NodeV::Record(fs)),
        0 <= i <= fs.len(),
    ensures
        forall|m: int|
            0 <= m < fields_entries(fs, i).len() ==> {
                &&& get_spec(
                    NodeV::Record(fs),
                    split_path((#[trigger] fields_entries(fs, i)[m]).0),
                ) == Result::<Seq<u8>, Error>::Ok(fields_entries(fs, i)[m].1)
                &&& set_spec(
                    NodeV::Record(fs),
                    split_path(fields_entries(fs, i)[m].0),
                    fields_entries(fs, i)[m].1,
                ) is Ok
            },
    decreases fs, fs.len() - i,
{
    if i < fs.len() {
        lemma_fields_wf_at(fs, 0, i);
        lemma_enumeration_sound(fs[i].node);
        lemma_record_enumeration_sound(fs, i + 1);
        let es = entries(fs[i].node);
        let block = prefix_entries(fs[i].name, es);
        let rest = fields_entries(fs, i + 1);
        assert(fields_entries(fs, i) == block + rest);
        assert forall|m: int| 0 <= m < fields_entries(fs, i).len() implies {
            &&& get_spec(NodeV::Record(fs), split_path((#[trigger] fields_entries(fs, i)[m]).0))
                == Result::<Seq<u8>, Error>::Ok(fields_entries(fs, i)[m].1)
            &&& set_spec(
                NodeV::Record(fs),
                split_path(fields_entries(fs, i)[m].0),
                fields_entries(fs, i)[m].1,
            ) is Ok
        } by {
            if m < block.len() {
                assert(fields_entries(fs, i)[m] == block[m]);
                assert(block[m] == (join_path(fs[i].name, es[m].0), es[m].1));
                lemma_split_join(fs[i].name, es[m].0);
                let segs = seq![fs[i].name] + split_path(es[m].0);
                assert(segs[0] == fs[i].name);
                assert(segs.drop_first() =~= split_path(es[m].0));
                lemma_field_at(fs, fs[i].name, i);
                assert(field_at(fs, fs[i].name) == i);
                assert(get_spec(fs[i].node, split_path(es[m].0)) == Result::<Seq<u8>, Error>::Ok(
                    es[m].1,
                ));
            } else {
                assert(fields_entries(fs, i)[m] == rest[m - block.len()]);
            }
        }
    }
}

pub proof fn lemma_array_enumeration_sound(items: Seq<NodeV>, i: int)
    requires
        wf(NodeV::Array(items)),
        0 <= i <= items.len(),
    ensures
        forall|m: int|
            0 <= m < items_entries(items, i).len() ==> {
                &&& get_spec(
                    NodeV::Array(items),
                    split_path((#[trigger] items_entries(items, i)[m]).0),
                ) == Result::<Seq<u8>, Error>::Ok(items_entries(items, i)[m].1)
                &&& set_spec(
                    NodeV::Array(items),
                    split_path(items_entries(items, i)[m].0),
                    items_entries(items, i)[m].1,
                ) is Ok
            },
    decreases items, items.len() - i,
{
    if i < items.len() {
        lemma_items_wf_at(items, 0, i);
        lemma_enumeration_sound(items[i]);
        lemma_array_enumeration_sound(items, i + 1);
        lemma_dec_digits(i as nat);
        let es = entries(items[i]);
        let block = prefix_entries(dec_digits(i as nat), es);
        let rest = items_entries(items, i + 1);
        assert(items_entries(items, i) == block + rest);
        assert forall|m: int| 0 <= m < items_entries(items, i).len() implies {
            &&& get_spec(NodeV::Array(items), split_path((#[trigger] items_entries(items, i)[m]).0))
                == Result::<Seq<u8>, Error>::Ok(items_entries(items, i)[m].1)
            &&& set_spec(
                NodeV::Array(items),
                split_path(items_entries(items, i)[m].0),
                items_entries(items, i)[m].1,
            ) is Ok
        } by {
            if m < block.len() {
                assert(items_entries(items, i)[m] == block[m]);
                assert(block[m] == (join_path(dec_digits(i as nat), es[m].0), es[m].1));
                lemma_split_join(dec_digits(i as nat), es[m].0);
                let segs = seq![dec_digits(i as nat)] + split_path(es[m].0);
                assert(segs[0] == dec_digits(i as nat));
                assert(segs.drop_first() =~= split_path(es[m].0));
                assert(index_of(dec_digits(i as nat)) == Some(i as nat));
                assert(get_spec(items[i], split_path(es[m].0)) == Result::<Seq<u8>, Error>::Ok(
                    es[m].1,
                ));
            } else {
                assert(items_entries(items, i)[m] == rest[m - block.len()]);
            }
        }
    }
}


/// The number of separators in a path.
pub open spec fn slash_count(p: Seq<u8>) -> nat
    decreases p.len(),
{
    if p.len() == 0 {
        0
    } else {
        slash_count(p.drop_last()) + if p.last() == SLASH {
            1nat
        } else {
            0nat
        }
    }
}

/// The number of segments of a slash-separated path: its depth.
pub open spec fn path_depth(p: Seq<u8>) -> nat {
    if p.len() == 0 {
        0
    } else {
        slash_count(p) + 1
    }
}

/// Whether every array of the tree has at least two elements, so that its
/// widest index is at least one digit wide.
pub open spec fn wide_arrays(n: NodeV) -> bool
    decreases n,
{
    match n {
        NodeV::Leaf(..) => true,
        NodeV::Atomic(..) => true,
        NodeV::Record(fs) => fields_wide(fs, 0),
        NodeV::Array(items) => items.len() >= 2 && items_wide(items, 0),
    }
}

pub open spec fn fields_wide(fs: Seq<FieldV>, i: int) -> bool
    decreases fs, fs.len() - i,
{
    if i < 0 || i >= fs.len() {
        true
    } else {
        wide_arrays(fs[i].node) && fields_wide(fs, i + 1)
    }
}

pub open spec fn items_wide(items: Seq<NodeV>, i: int) -> bool
    decreases items, items.len() - i,
{
    if i < 0 || i >= items.len() {
        true
    } else {
        wide_arrays(items[i]) && items_wide(items, i + 1)
    }
}

pub proof fn lemma_fields_wide_at(fs: Seq<FieldV>, i: int, j: int)
    requires
        fields_wide(fs, i),
        0 <= i <= j < fs.len(),
    ensures
        wide_arrays(fs[j].node),
    decreases j - i,
{
    if i < j {
        lemma_fields_wide_at(fs, i + 1, j);
    }
}

pub proof fn lemma_items_wide_at(items: Seq<NodeV>, i: int, j: int)
    requires
        items_wide(items, i),
        0 <= i <= j < items.len(),
    ensures
        wide_arrays(items[j]),
    decreases j - i,
{
    if i < j {
        lemma_items_wide_at(items, i + 1, j);
    }
}

/// A path without separators has none to count.
pub proof fn lemma_slash_count_zero(p: Seq<u8>)
    requires
        forall|j: int| 0 <= j < p.len() ==> p[j] != SLASH,
    ensures
        slash_count(p) == 0,
    decreases p.len(),
{
    if p.len() > 0 {
        assert forall|j: int| 0 <= j < p.drop_last().len() implies p.drop_last()[j] != SLASH by {
            assert(p.drop_last()[j] == p[j]);
        }
        lemma_slash_count_zero(p.drop_last());
    }
}

/// Separators add up across concatenation.
pub proof fn lemma_slash_count_concat(a: Seq<u8>, b: Seq<u8>)
    ensures
        slash_count(a + b) == slash_count(a) + slash_count(b),
    decreases b.len(),
{
    if b.len() == 0 {
        assert(a + b =~= a);
    } else {
        assert((a + b).drop_last() =~= a + b.drop_last());
        assert((a + b).last() == b.last());
        lemma_slash_count_concat(a, b.drop_last());
    }
}

/// Every node has at least the sentinel level.
pub proof fn lemma_meta_depth_pos(n: NodeV)
    ensures
        crate::model::meta_depth(n) >= 1,
{
}

/// Index widths grow with the index.
pub proof fn lemma_index_width_mono(a: nat, b: nat)
    requires
        a <= b,
    ensures
        crate::model::index_width(a) <= crate::model::index_width(b),
    decreases b,
{
    if a < b && a > 0 {
        lemma_index_width_mono(a / 10, b / 10);
    }
}

/// The rendering of an index is exactly as wide as the width function says,
/// except that the index zero still takes one byte.
pub proof fn lemma_dec_digits_len(i: nat)
    ensures
        dec_digits(i).len() == if i == 0 {
            1nat
        } else {
            crate::model::index_width(i)
        },
    decreases i,
{
    if i >= 10 {
        lemma_dec_digits_len(i / 10);
        assert(dec_digits(i).len() == dec_digits(i / 10).len() + 1);
        assert(crate::model::index_width(i) == 1 + crate::model::index_width(i / 10));
    } else if i > 0 {
        assert(crate::model::index_width(i / 10) == 0);
        assert(crate::model::index_width(i) == 1);
    }
}

/// Metadata bounds the enumeration: on a well-formed tree whose arrays have
/// at least two elements, every enumerated path fits `max_topic_size` and
/// its depth stays under `max_depth`, sentinel included. (A one-element
/// array falls outside: its index `0` still takes one byte where the
/// metadata formula budgets none.)
pub proof fn lemma_metadata_bounds(n: NodeV)
    requires
        wf(n),
        wide_arrays(n),
    ensures
        forall|m: int|
            0 <= m < entries(n).len() ==> (#[trigger] entries(n)[m]).0.len() <= crate::model::meta_size(n)
                && path_depth(entries(n)[m].0) + 1 <= crate::model::meta_depth(n),
    decreases n,
{
    match n {
        NodeV::Leaf(_, v) => {
            assert(entries(n) == seq![(Seq::<u8>::empty(), v)]);
            assert(entries(n)[0] == (Seq::<u8>::empty(), v));
            assert(path_depth(entries(n)[0].0) == 0);
            assert(crate::model::meta_size(n) == 0);
            assert(crate::model::meta_depth(n) == 1);
        },
        NodeV::Atomic(_, v) => {
            assert(entries(n) == seq![(Seq::<u8>::empty(), v)]);
            assert(entries(n)[0] == (Seq::<u8>::empty(), v));
            assert(path_depth(entries(n)[0].0) == 0);
            assert(crate::model::meta_size(n) == 0);
            assert(crate::model::meta_depth(n) == 1);
        },
        NodeV::Record(fs) => {
            lemma_record_metadata_bounds(fs, 0);
            assert forall|m: int| 0 <= m < entries(n).len() implies (#[trigger] entries(n)[m]).0.len()
                <= crate::model::meta_size(n) && path_depth(entries(n)[m].0) + 1
                <= crate::model::meta_depth(n) by {
                assert(entries(n) == fields_entries(fs, 0));
                assert((fields_entries(fs, 0)[m]).0.len() <= crate::model::meta_size(
                    NodeV::Record(fs),
                ) && path_depth(fields_entries(fs, 0)[m].0) + 1 <= crate::model::meta_depth(
                    NodeV::Record(fs),
                ));
            }
        },
        NodeV::Array(items) => {
            lemma_array_metadata_bounds(items, 0);
            assert forall|m: int| 0 <= m < entries(n).len() implies (#[trigger] entries(n)[m]).0.len()
                <= crate::model::meta_size(n) && path_depth(entries(n)[m].0) + 1
                <= crate::model::meta_depth(n) by {
                assert(entries(n) == items_entries(items, 0));
                assert((items_entries(items, 0)[m]).0.len() <= crate::model::meta_size(
                    NodeV::Array(items),
                ) && path_depth(items_entries(items, 0)[m].0) + 1 <= crate::model::meta_depth(
                    NodeV::Array(items),
                ));
            }
        },
    }
}

pub proof fn lemma_record_metadata_bounds(fs: Seq<FieldV>, i: int)
    requires
        wf(NodeV::Record(fs)),
        fields_wide(fs, 0),
        0 <= i <= fs.len(),
    ensures
        forall|m: int|
            0 <= m < fields_entries(fs, i).len() ==> (#[trigger] fields_entries(fs, i)[m]).0.len()
                <= crate::model::meta_size(NodeV::Record(fs)) && path_depth(
                fields_entries(fs, i)[m].0,
            ) + 1 <= crate::model::meta_depth(NodeV::Record(fs)),
    decreases fs, fs.len() - i,
{
    if i < fs.len() {
        lemma_fields_wf_at(fs, 0, i);
        lemma_fields_wide_at(fs, 0, i);
        lemma_metadata_bounds(fs[i].node);
        lemma_record_metadata_bounds(fs, i + 1);
        crate::model::lemma_fields_size_at(fs, 0, i);
        crate::model::lemma_fields_depth_at(fs, 0, i);
        lemma_meta_depth_pos(fs[i].node);
        let es = entries(fs[i].node);
        let block = prefix_entries(fs[i].name, es);
        let rest = fields_entries(fs, i + 1);
        assert(fields_entries(fs, i) == block + rest);
        let msn = crate::model::meta_size(NodeV::Record(fs));
        let mdn = crate::model::meta_depth(NodeV::Record(fs));
        let msc = crate::model::meta_size(fs[i].node);
        let mdc = crate::model::meta_depth(fs[i].node);
        assert forall|m: int| 0 <= m < fields_entries(fs, i).len() implies (#[trigger] fields_entries(
            fs,
            i,
        )[m]).0.len() <= msn && path_depth(fields_entries(fs, i)[m].0) + 1 <= mdn by {
            if m < block.len() {
                assert(fields_entries(fs, i)[m] == block[m]);
                let p = es[m].0;
                let w = join_path(fs[i].name, p);
                assert(block[m] == (w, es[m].1));
                assert(p.len() <= msc && path_depth(p) + 1 <= mdc);
                lemma_slash_count_zero(fs[i].name);
                if p.len() == 0 {
                    assert(w == fs[i].name);
                    assert(w.len() <= fs[i].name.len() + crate::model::sep_len(msc) + msc);
                    assert(path_depth(w) == 1);
                } else {
                    assert(w == fs[i].name + seq![SLASH] + p);
                    assert(w.len() == fs[i].name.len() + 1 + p.len());
                    assert(msc >= 1);
                    assert(crate::model::sep_len(msc) == 1);
                    lemma_slash_count_concat(fs[i].name + seq![SLASH], p);
                    lemma_slash_count_concat(fs[i].name, seq![SLASH]);
                    assert(slash_count(seq![SLASH]) == 1) by {
                        assert(seq![SLASH].drop_last() =~= Seq::<u8>::empty());
                        assert(slash_count(Seq::<u8>::empty()) == 0);
                        assert(seq![SLASH].last() == SLASH);
                        assert(slash_count(seq![SLASH]) == slash_count(seq![SLASH].drop_last())
                            + 1);
                    }
                    assert(slash_count(w) == 1 + slash_count(p));
                    assert(path_depth(w) == 1 + path_depth(p));
                }
                assert(msn >= fs[i].name.len() + crate::model::sep_len(msc) + msc);
                assert(mdn >= 1 + mdc);
            } else {
                assert(fields_entries(fs, i)[m] == rest[m - block.len()]);
            }
        }
    }
}

pub proof fn lemma_array_metadata_bounds(items: Seq<NodeV>, i: int)
    requires
        wf(NodeV::Array(items)),
        items.len() >= 2,
        items_wide(items, 0),
        0 <= i <= items.len(),
    ensures
        forall|m: int|
            0 <= m < items_entries(items, i).len() ==> (#[trigger] items_entries(items, i)[m]).0.len()
                <= crate::model::meta_size(NodeV::Array(items)) && path_depth(
                items_entries(items, i)[m].0,
            ) + 1 <= crate::model::meta_depth(NodeV::Array(items)),
    decreases items, items.len() - i,
{
    if i < items.len() {
        lemma_items_wf_at(items, 0, i);
        lemma_items_wide_at(items, 0, i);
        lemma_metadata_bounds(items[i]);
        lemma_array_metadata_bounds(items, i + 1);
        lemma_meta_depth_pos(items[i]);
        lemma_dec_digits(i as nat);
        lemma_dec_digits_len(i as nat);
        lemma_index_width_mono(1, (items.len() - 1) as nat);
        lemma_index_width_mono(i as nat, (items.len() - 1) as nat);
        let es = entries(items[i]);
        let name = dec_digits(i as nat);
        let block = prefix_entries(name, es);
        let rest = items_entries(items, i + 1);
        assert(items_entries(items, i) == block + rest);
        let msn = crate::model::meta_size(NodeV::Array(items));
        let mdn = crate::model::meta_depth(NodeV::Array(items));
        // Uniform metadata: every element shares the first element's bounds.
        let msc = crate::model::meta_size(items[i]);
        let mdc = crate::model::meta_depth(items[i]);
        assert(msc == crate::model::meta_size(items[0]));
        assert(mdc == crate::model::meta_depth(items[0]));
        let width = crate::model::index_width((items.len() - 1) as nat);
        assert(width >= 1);
        assert(name.len() <= width);
        assert forall|m: int| 0 <= m < items_entries(items, i).len() implies (#[trigger] items_entries(
            items,
            i,
        )[m]).0.len() <= msn && path_depth(items_entries(items, i)[m].0) + 1 <= mdn by {
            if m < block.len() {
                assert(items_entries(items, i)[m] == block[m]);
                let p = es[m].0;
                let w = join_path(name, p);
                assert(block[m] == (w, es[m].1));
                assert(p.len() <= msc && path_depth(p) + 1 <= mdc);
                assert(forall|j: int| 0 <= j < name.len() ==> name[j] != SLASH);
                lemma_slash_count_zero(name);
                if p.len() == 0 {
                    assert(w == name);
                    assert(path_depth(w) == 1);
                } else {
                    assert(w == name + seq![SLASH] + p);
                    assert(w.len() == name.len() + 1 + p.len());
                    assert(msc >= 1);
                    assert(crate::model::sep_len(msc) == 1);
                    lemma_slash_count_concat(name + seq![SLASH], p);
                    lemma_slash_count_concat(name, seq![SLASH]);
                    assert(slash_count(seq![SLASH]) == 1) by {
                        assert(seq![SLASH].drop_last() =~= Seq::<u8>::empty());
                        assert(slash_count(Seq::<u8>::empty()) == 0);
                        assert(seq![SLASH].last() == SLASH);
                        assert(slash_count(seq![SLASH]) == slash_count(seq![SLASH].drop_last())
                            + 1);
                    }
                    assert(slash_count(w) == 1 + slash_count(p));
                    assert(path_depth(w) == 1 + path_depth(p));
                }
                assert(msn == width + crate::model::sep_len(crate::model::meta_size(items[0]))
                    + crate::model::meta_size(items[0]));
                assert(mdn == 1 + crate::model::meta_depth(items[0]));
            } else {
                assert(items_entries(items, i)[m] == rest[m - block.len()]);
            }
        }
    }
}


/// The first segment of every path a field block contributes is the name of
/// one of its fields from `i` on.
pub proof fn lemma_fields_first_segment(fs: Seq<FieldV>, i: int)
    requires
        fields_wf(fs, 0),
        0 <= i <= fs.len(),
    ensures
        forall|m: int|
            0 <= m < fields_entries(fs, i).len() ==> exists|j: int|
                i <= j < fs.len() && split_path((#[trigger] fields_entries(fs, i)[m]).0).len() >= 1
                    && split_path(fields_entries(fs, i)[m].0)[0] == fs[j].name,
    decreases fs, fs.len() - i,
{
    if i < fs.len() {
        lemma_fields_first_segment(fs, i + 1);
        lemma_fields_wf_at(fs, 0, i);
        let es = entries(fs[i].node);
        let block = prefix_entries(fs[i].name, es);
        let rest = fields_entries(fs, i + 1);
        assert(fields_entries(fs, i) == block + rest);
        assert forall|m: int| 0 <= m < fields_entries(fs, i).len() implies exists|j: int|
            i <= j < fs.len() && split_path((#[trigger] fields_entries(fs, i)[m]).0).len() >= 1
                && split_path(fields_entries(fs, i)[m].0)[0] == fs[j].name by {
            if m < block.len() {
                assert(fields_entries(fs, i)[m] == block[m]);
                assert(block[m] == (join_path(fs[i].name, es[m].0), es[m].1));
                lemma_split_join(fs[i].name, es[m].0);
                let sp = seq![fs[i].name] + split_path(es[m].0);
                assert(sp.len() >= 1 && sp[0] == fs[i].name);
                assert(i <= i < fs.len() && split_path(fields_entries(fs, i)[m].0).len() >= 1
                    && split_path(fields_entries(fs, i)[m].0)[0] == fs[i].name);
            } else {
                assert(fields_entries(fs, i)[m] == rest[m - block.len()]);
            }
        }
    }
}

/// The first segment of every path an array block contributes is the
/// rendering of one of its indices from `i` on.
pub proof fn lemma_items_first_segment(items: Seq<NodeV>, i: int)
    requires
        0 <= i <= items.len(),
    ensures
        forall|m: int|
            0 <= m < items_entries(items, i).len() ==> exists|j: int|
                i <= j < items.len() && split_path(
                    (#[trigger] items_entries(items, i)[m]).0,
                ).len() >= 1 && split_path(items_entries(items, i)[m].0)[0] == #[trigger] dec_digits(
                    j as nat,
                ),
    decreases items, items.len() - i,
{
    if i < items.len() {
        lemma_items_first_segment(items, i + 1);
        lemma_dec_digits(i as nat);
        let es = entries(items[i]);
        let block = prefix_entries(dec_digits(i as nat), es);
        let rest = items_entries(items, i + 1);
        assert(items_entries(items, i) == block + rest);
        assert forall|m: int| 0 <= m < items_entries(items, i).len() implies exists|j: int|
            i <= j < items.len() && split_path((#[trigger] items_entries(items, i)[m]).0).len() >= 1
                && split_path(items_entries(items, i)[m].0)[0] == #[trigger] dec_digits(
                j as nat,
            ) by {
            if m < block.len() {
                assert(items_entries(items, i)[m] == block[m]);
                assert(block[m] == (join_path(dec_digits(i as nat), es[m].0), es[m].1));
                lemma_split_join(dec_digits(i as nat), es[m].0);
                let sp = seq![dec_digits(i as nat)] + split_path(es[m].0);
                assert(sp.len() >= 1 && sp[0] == dec_digits(i as nat));
                assert(i <= i < items.len() && split_path(items_entries(items, i)[m].0).len() >= 1
                    && split_path(items_entries(items, i)[m].0)[0] == dec_digits(i as nat));
            } else {
                assert(items_entries(items, i)[m] == rest[m - block.len()]);
            }
        }
    }
}

/// No path repeats: on a well-formed tree the enumeration yields pairwise
/// distinct paths — seen through their segments, no two coincide.
pub proof fn lemma_paths_distinct(n: NodeV)
    requires
        wf(n),
    ensures
        forall|a: int, b: int|
            0 <= a < b < entries(n).len() ==> split_path((#[trigger] entries(n)[a]).0)
                != split_path((#[trigger] entries(n)[b]).0),
    decreases n,
{
    match n {
        NodeV::Leaf(..) => {},
        NodeV::Atomic(..) => {},
        NodeV::Record(fs) => {
            lemma_record_paths_distinct(fs, 0);
            assert forall|a: int, b: int| 0 <= a < b < entries(n).len() implies split_path(
                (#[trigger] entries(n)[a]).0,
            ) != split_path((#[trigger] entries(n)[b]).0) by {
                assert(entries(n) == fields_entries(fs, 0));
                assert(split_path((fields_entries(fs, 0)[a]).0) != split_path(
                    (fields_entries(fs, 0)[b]).0,
                ));
            }
        },
        NodeV::Array(items) => {
            lemma_array_paths_distinct(items, 0);
            assert forall|a: int, b: int| 0 <= a < b < entries(n).len() implies split_path(
                (#[trigger] entries(n)[a]).0,
            ) != split_path((#[trigger] entries(n)[b]).0) by {
                assert(entries(n) == items_entries(items, 0));
                assert(split_path((items_entries(items, 0)[a]).0) != split_path(
                    (items_entries(items, 0)[b]).0,
                ));
            }
        },
    }
}

pub proof fn lemma_record_paths_distinct(fs: Seq<FieldV>, i: int)
    requires
        wf(NodeV::Record(fs)),
        0 <= i <= fs.len(),
    ensures
        forall|a: int, b: int|
            0 <= a < b < fields_entries(fs, i).len() ==> split_path(
                (#[trigger] fields_entries(fs, i)[a]).0,
            ) != split_path((#[trigger] fields_entries(fs, i)[b]).0),
    decreases fs, fs.len() - i,
{
    if i < fs.len() {
        lemma_fields_wf_at(fs, 0, i);
        lemma_paths_distinct(fs[i].node);
        lemma_record_paths_distinct(fs, i + 1);
        lemma_fields_first_segment(fs, i + 1);
        let es = entries(fs[i].node);
        let block = prefix_entries(fs[i].name, es);
        let rest = fields_entries(fs, i + 1);
        assert(fields_entries(fs, i) == block + rest);
        assert forall|a: int, b: int| 0 <= a < b < fields_entries(fs, i).len() implies split_path(
            (#[trigger] fields_entries(fs, i)[a]).0,
        ) != split_path((#[trigger] fields_entries(fs, i)[b]).0) by {
            let pa = fields_entries(fs, i)[a].0;
            let pb = fields_entries(fs, i)[b].0;
            if b < block.len() {
                // Two paths of the same child: the head segment agrees and
                // the tails differ by the child's own distinctness.
                assert(fields_entries(fs, i)[a] == block[a]);
                assert(fields_entries(fs, i)[b] == block[b]);
                lemma_split_join(fs[i].name, es[a].0);
                lemma_split_join(fs[i].name, es[b].0);
                assert(split_path(es[a].0) != split_path(es[b].0));
                let sa = seq![fs[i].name] + split_path(es[a].0);
                let sb = seq![fs[i].name] + split_path(es[b].0);
                if sa == sb {
                    assert(sa.drop_first() =~= split_path(es[a].0));
                    assert(sb.drop_first() =~= split_path(es[b].0));
                }
            } else if a < block.len() {
                // Paths of different fields differ in their first segment.
                assert(fields_entries(fs, i)[a] == block[a]);
                lemma_split_join(fs[i].name, es[a].0);
                assert(split_path(pa)[0] == fs[i].name);
                assert(fields_entries(fs, i)[b] == rest[b - block.len()]);
                let j = choose|j: int|
                    i + 1 <= j < fs.len() && split_path(
                        (fields_entries(fs, i + 1)[b - block.len()]).0,
                    ).len() >= 1 && split_path(fields_entries(fs, i + 1)[b - block.len()].0)[0]
                        == (#[trigger] fs[j]).name;
                assert(split_path(pb)[0] == fs[j].name);
                assert(fs[i].name != fs[j].name);
            } else {
                assert(fields_entries(fs, i)[a] == rest[a - block.len()]);
                assert(fields_entries(fs, i)[b] == rest[b - block.len()]);
            }
        }
    }
}

pub proof fn lemma_array_paths_distinct(items: Seq<NodeV>, i: int)
    requires
        wf(NodeV::Array(items)),
        0 <= i <= items.len(),
    ensures
        forall|a: int, b: int|
            0 <= a < b < items_entries(items, i).len() ==> split_path(
                (#[trigger] items_entries(items, i)[a]).0,
            ) != split_path((#[trigger] items_entries(items, i)[b]).0),
    decreases items, items.len() - i,
{
    if i < items.len() {
        lemma_items_wf_at(items, 0, i);
        lemma_paths_distinct(items[i]);
        lemma_array_paths_distinct(items, i + 1);
        lemma_items_first_segment(items, i + 1);
        lemma_dec_digits(i as nat);
        let es = entries(items[i]);
        let block = prefix_entries(dec_digits(i as nat), es);
        let rest = items_entries(items, i + 1);
        assert(items_entries(items, i) == block + rest);
        assert forall|a: int, b: int| 0 <= a < b < items_entries(items, i).len() implies split_path(
            (#[trigger] items_entries(items, i)[a]).0,
        ) != split_path((#[trigger] items_entries(items, i)[b]).0) by {
            let pa = items_entries(items, i)[a].0;
            let pb = items_entries(items, i)[b].0;
            if b < block.len() {
                assert(items_entries(items, i)[a] == block[a]);
                assert(items_entries(items, i)[b] == block[b]);
                lemma_split_join(dec_digits(i as nat), es[a].0);
                lemma_split_join(dec_digits(i as nat), es[b].0);
                assert(split_path(es[a].0) != split_path(es[b].0));
                let sa = seq![dec_digits(i as nat)] + split_path(es[a].0);
                let sb = seq![dec_digits(i as nat)] + split_path(es[b].0);
                if sa == sb {
                    assert(sa.drop_first() =~= split_path(es[a].0));
                    assert(sb.drop_first() =~= split_path(es[b].0));
                }
            } else if a < block.len() {
                // Distinct indices render to distinct digit strings.
                assert(items_entries(items, i)[a] == block[a]);
                lemma_split_join(dec_digits(i as nat), es[a].0);
                assert(split_path(pa)[0] == dec_digits(i as nat));
                assert(items_entries(items, i)[b] == rest[b - block.len()]);
                let j = choose|j: int|
                    i + 1 <= j < items.len() && split_path(
                        (items_entries(items, i + 1)[b - block.len()]).0,
                    ).len() >= 1 && split_path(items_entries(items, i + 1)[b - block.len()].0)[0]
                        == #[trigger] dec_digits(j as nat);
                assert(split_path(pb)[0] == dec_digits(j as nat));
                lemma_dec_digits(j as nat);
                assert(digits_val(dec_digits(i as nat)) != digits_val(dec_digits(j as nat)));
            } else {
                assert(items_entries(items, i)[a] == rest[a - block.len()]);
                assert(items_entries(items, i)[b] == rest[b - block.len()]);
            }
        }
    }
}

/// No path repeats, stated on the paths themselves.
pub proof fn lemma_no_repeats(n: NodeV)
    requires
        wf(n),
    ensures
        forall|a: int, b: int|
            0 <= a < b < leaf_paths(n).len() ==> #[trigger] leaf_paths(n)[a] != #[trigger] leaf_paths(
                n,
            )[b],
{
    lemma_paths_distinct(n);
    assert forall|a: int, b: int| 0 <= a < b < leaf_paths(n).len() implies #[trigger] leaf_paths(
        n,
    )[a] != #[trigger] leaf_paths(n)[b] by {
        assert(leaf_paths(n)[a] == entries(n)[a].0);
        assert(leaf_paths(n)[b] == entries(n)[b].0);
        assert(split_path(entries(n)[a].0) != split_path(entries(n)[b].0));
    }
}


pub proof fn lemma_fields_wf_from_pointwise(fs: Seq<FieldV>, i: int)
    requires
        forall|m: int|
            i <= m < fs.len() ==> (#[trigger] fs[m]).name.len() > 0 && !fs[m].name.contains(SLASH)
                && wf(fs[m].node),
    ensures
        fields_wf(fs, i),
    decreases fs, fs.len() - i,
{
    if 0 <= i < fs.len() {
        lemma_fields_wf_from_pointwise(fs, i + 1);
    }
}

pub proof fn lemma_items_wf_from_pointwise(items: Seq<NodeV>, i: int)
    requires
        forall|m: int| i <= m < items.len() ==> wf(#[trigger] items[m]),
    ensures
        items_wf(items, i),
    decreases items, items.len() - i,
{
    if 0 <= i < items.len() {
        lemma_items_wf_from_pointwise(items, i + 1);
    }
}

/// The record metadata reads only field names and child metadata.
pub proof fn lemma_fields_meta_pointwise(fs: Seq<FieldV>, fs2: Seq<FieldV>, i: int)
    requires
        fs.len() == fs2.len(),
        forall|m: int|
            0 <= m < fs.len() ==> (#[trigger] fs2[m]).name == fs[m].name && crate::model::meta_size(
                fs2[m].node,
            ) == crate::model::meta_size(fs[m].node) && crate::model::meta_depth(fs2[m].node)
                == crate::model::meta_depth(fs[m].node),
    ensures
        crate::model::fields_size(fs2, i) == crate::model::fields_size(fs, i),
        crate::model::fields_depth(fs2, i) == crate::model::fields_depth(fs, i),
    decreases fs.len() - i,
{
    if 0 <= i < fs.len() {
        lemma_fields_meta_pointwise(fs, fs2, i + 1);
    }
}

/// The paths of a field block read only the names and the children's paths.
pub proof fn lemma_fields_pathseq_pointwise(fs: Seq<FieldV>, fs2: Seq<FieldV>, i: int)
    requires
        fs.len() == fs2.len(),
        forall|m: int|
            0 <= m < fs.len() ==> (#[trigger] fs2[m]).name == fs[m].name && crate::model::path_seq(
                entries(fs2[m].node),
            ) == crate::model::path_seq(entries(fs[m].node)),
    ensures
        crate::model::path_seq(fields_entries(fs2, i)) == crate::model::path_seq(
            fields_entries(fs, i),
        ),
    decreases fs.len() - i,
{
    if 0 <= i < fs.len() {
        lemma_fields_pathseq_pointwise(fs, fs2, i + 1);
        let es = entries(fs[i].node);
        let es2 = entries(fs2[i].node);
        assert(crate::model::path_seq(es2).len() == crate::model::path_seq(es).len());
        assert(es2.len() == es.len());
        let w = fields_entries(fs, i);
        let w2 = fields_entries(fs2, i);
        assert(w == prefix_entries(fs[i].name, es) + fields_entries(fs, i + 1));
        assert(w2 == prefix_entries(fs2[i].name, es2) + fields_entries(fs2, i + 1));
        assert(crate::model::path_seq(fields_entries(fs2, i + 1)).len() == crate::model::path_seq(
            fields_entries(fs, i + 1),
        ).len());
        assert(fields_entries(fs2, i + 1).len() == fields_entries(fs, i + 1).len());
        assert(w2.len() == w.len());
        assert forall|k: int|
            0 <= k < crate::model::path_seq(w2).len() implies #[trigger] crate::model::path_seq(
            w2,
        )[k] == crate::model::path_seq(w)[k] by {
            assert(crate::model::path_seq(w2)[k] == w2[k].0);
            assert(crate::model::path_seq(w)[k] == w[k].0);
            if k < es.len() {
                assert(w2[k] == prefix_entries(fs2[i].name, es2)[k]);
                assert(w[k] == prefix_entries(fs[i].name, es)[k]);
                assert(crate::model::path_seq(es2)[k] == crate::model::path_seq(es)[k]);
                assert(es2[k].0 == es[k].0);
            } else {
                assert(w2[k] == fields_entries(fs2, i + 1)[k - es.len()]);
                assert(w[k] == fields_entries(fs, i + 1)[k - es.len()]);
                assert(crate::model::path_seq(fields_entries(fs2, i + 1))[k - es.len()]
                    == crate::model::path_seq(fields_entries(fs, i + 1))[k - es.len()]);
            }
        }
        assert(crate::model::path_seq(w2) =~= crate::model::path_seq(w));
    } else {
        assert(crate::model::path_seq(fields_entries(fs2, i)) =~= crate::model::path_seq(
            fields_entries(fs, i),
        ));
    }
}

/// The paths of an array block read only the indices and the elements' paths.
pub proof fn lemma_items_pathseq_pointwise(items: Seq<NodeV>, items2: Seq<NodeV>, i: int)
    requires
        items.len() == items2.len(),
        forall|m: int|
            0 <= m < items.len() ==> crate::model::path_seq(entries(#[trigger] items2[m]))
                == crate::model::path_seq(entries(items[m])),
    ensures
        crate::model::path_seq(items_entries(items2, i)) == crate::model::path_seq(
            items_entries(items, i),
        ),
    decreases items.len() - i,
{
    if 0 <= i < items.len() {
        lemma_items_pathseq_pointwise(items, items2, i + 1);
        let es = entries(items[i]);
        let es2 = entries(items2[i]);
        assert(crate::model::path_seq(es2).len() == crate::model::path_seq(es).len());
        assert(es2.len() == es.len());
        let w = items_entries(items, i);
        let w2 = items_entries(items2, i);
        assert(w == prefix_entries(dec_digits(i as nat), es) + items_entries(items, i + 1));
        assert(w2 == prefix_entries(dec_digits(i as nat), es2) + items_entries(items2, i + 1));
        assert(crate::model::path_seq(items_entries(items2, i + 1)).len()
            == crate::model::path_seq(items_entries(items, i + 1)).len());
        assert(items_entries(items2, i + 1).len() == items_entries(items, i + 1).len());
        assert(w2.len() == w.len());
        assert forall|k: int|
            0 <= k < crate::model::path_seq(w2).len() implies #[trigger] crate::model::path_seq(
            w2,
        )[k] == crate::model::path_seq(w)[k] by {
            assert(crate::model::path_seq(w2)[k] == w2[k].0);
            assert(crate::model::path_seq(w)[k] == w[k].0);
            if k < es.len() {
                assert(w2[k] == prefix_entries(dec_digits(i as nat), es2)[k]);
                assert(w[k] == prefix_entries(dec_digits(i as nat), es)[k]);
                assert(crate::model::path_seq(es2)[k] == crate::model::path_seq(es)[k]);
                assert(es2[k].0 == es[k].0);
            } else {
                assert(w2[k] == items_entries(items2, i + 1)[k - es.len()]);
                assert(w[k] == items_entries(items, i + 1)[k - es.len()]);
                assert(crate::model::path_seq(items_entries(items2, i + 1))[k - es.len()]
                    == crate::model::path_seq(items_entries(items, i + 1))[k - es.len()]);
            }
        }
        assert(crate::model::path_seq(w2) =~= crate::model::path_seq(w));
    } else {
        assert(crate::model::path_seq(items_entries(items2, i)) =~= crate::model::path_seq(
            items_entries(items, i),
        ));
    }
}

/// A set that succeeds changes one leaf's value and nothing else: the tree
/// stays well-formed, and its enumeration and metadata are exactly as
/// before, so an interrupted republish pass remains meaningful across
/// accepted updates.
pub proof fn lemma_set_preserves_structure(n: NodeV, segs: Seq<Seq<u8>>, v: Seq<u8>, n2: NodeV)
    requires
        wf(n),
        set_spec(n, segs, v) == Result::<NodeV, Error>::Ok(n2),
    ensures
        wf(n2),
        leaf_paths(n2) == leaf_paths(n),
        crate::model::meta_size(n2) == crate::model::meta_size(n),
        crate::model::meta_depth(n2) == crate::model::meta_depth(n),
    decreases segs.len(),
{
    match n {
        NodeV::Leaf(k, w) => {
            assert(n2 == NodeV::Leaf(k, v));
            assert(leaf_paths(n2) =~= leaf_paths(n));
        },
        NodeV::Atomic(k, w) => {
            assert(n2 == NodeV::Atomic(k, v));
            assert(leaf_paths(n2) =~= leaf_paths(n));
        },
        NodeV::Record(fs) => {
            let name = segs[0];
            let j = field_at(fs, name);
            lemma_field_at_found(fs, name);
            let c = set_spec(fs[j].node, segs.drop_first(), v).unwrap();
            let fs2 = fs.update(j, FieldV { name: fs[j].name, node: c });
            assert(n2 == NodeV::Record(fs2));
            lemma_fields_wf_at(fs, 0, j);
            lemma_set_preserves_structure(fs[j].node, segs.drop_first(), v, c);
            assert forall|m: int|
                0 <= m < fs2.len() implies (#[trigger] fs2[m]).name == fs[m].name
                    && crate::model::meta_size(fs2[m].node) == crate::model::meta_size(fs[m].node)
                    && crate::model::meta_depth(fs2[m].node) == crate::model::meta_depth(
                    fs[m].node,
                ) && crate::model::path_seq(entries(fs2[m].node)) == crate::model::path_seq(
                    entries(fs[m].node),
                ) by {
                if m != j {
                    assert(fs2[m] == fs[m]);
                }
            }
            assert forall|m: int|
                0 <= m < fs2.len() implies (#[trigger] fs2[m]).name.len() > 0
                    && !fs2[m].name.contains(SLASH) && wf(fs2[m].node) by {
                lemma_fields_wf_at(fs, 0, m);
                if m != j {
                    assert(fs2[m] == fs[m]);
                }
            }
            lemma_fields_wf_from_pointwise(fs2, 0);
            lemma_fields_meta_pointwise(fs, fs2, 0);
            lemma_fields_pathseq_pointwise(fs, fs2, 0);
        },
        NodeV::Array(items) => {
            let i = index_of(segs[0]).unwrap() as int;
            let c = set_spec(items[i], segs.drop_first(), v).unwrap();
            let items2 = items.update(i, c);
            assert(n2 == NodeV::Array(items2));
            lemma_items_wf_at(items, 0, i);
            lemma_set_preserves_structure(items[i], segs.drop_first(), v, c);
            assert forall|m: int|
                0 <= m < items2.len() implies crate::model::meta_size(#[trigger] items2[m])
                    == crate::model::meta_size(items[m]) && crate::model::meta_depth(items2[m])
                    == crate::model::meta_depth(items[m]) && crate::model::path_seq(
                    entries(items2[m]),
                ) == crate::model::path_seq(entries(items[m])) by {
                if m != i {
                    assert(items2[m] == items[m]);
                }
            }
            assert forall|m: int| 0 <= m < items2.len() implies wf(#[trigger] items2[m]) by {
                lemma_items_wf_at(items, 0, m);
                if m != i {
                    assert(items2[m] == items[m]);
                }
            }
            lemma_items_wf_from_pointwise(items2, 0);
            lemma_items_pathseq_pointwise(items, items2, 0);
            assert(crate::model::meta_size(items2[0]) == crate::model::meta_size(items[0]));
            assert(crate::model::meta_depth(items2[0]) == crate::model::meta_depth(items[0]));
            assert forall|m: int|
                0 <= m < items2.len() implies #[trigger] crate::model::meta_depth(items2[m])
                    == crate::model::meta_depth(items2[0]) && crate::model::meta_size(items2[m])
                    == crate::model::meta_size(items2[0]) by {
                assert(crate::model::meta_depth(items[m]) == crate::model::meta_depth(items[0]));
            }
        },
    }
}

} // verus!
