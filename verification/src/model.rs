//! The mathematical model of the settings tree.
//!
//! Every contract of the executable layer speaks of these ghost types and
//! spec functions: what a tree is, which values a leaf accepts, what `set`,
//! `get`, the metadata and the path enumeration mean.

use vstd::prelude::*;

verus! {

use crate::Error;

/// Byte value of `/`, the path separator.
pub const SLASH: u8 = 47;
/// Byte value of `-`.
pub const MINUS: u8 = 45;
/// Byte value of `.`.
pub const DOT: u8 = 46;
/// Byte value of `0`.
pub const D0: u8 = 48;
/// Byte value of `9`.
pub const D9: u8 = 57;

/// Which encodings a leaf accepts (ghost mirror of `tree::ValueKind`).
pub enum KindV {
    /// A decimal number, optionally signed, optionally with a fraction part.
    Number,
    /// Exactly one of a fixed list of encodings (an enumeration's variants).
    Choice(Seq<Seq<u8>>),
    /// Any bytes; the unit value of an atomic subtree is kept whole.
    Opaque,
}

/// Ghost mirror of a record field.
pub struct FieldV {
    pub name: Seq<u8>,
    pub node: NodeV,
}

/// Ghost mirror of a settings tree node.
pub enum NodeV {
    /// A leaf: a value addressable only at its own path.
    Leaf(KindV, Seq<u8>),
    /// An atomic subtree: set and read as one unit, interior invisible.
    Atomic(KindV, Seq<u8>),
    /// A record: named fields in declaration order.
    Record(Seq<FieldV>),
    /// A fixed-size array, addressed by decimal index.
    Array(Seq<NodeV>),
}

pub open spec fn is_digit(c: u8) -> bool {
    D0 <= c && c <= D9
}

pub open spec fn all_digits(s: Seq<u8>) -> bool {
    forall|i: int| 0 <= i < s.len() ==> is_digit(#[trigger] s[i])
}

pub open spec fn digits_nonempty(s: Seq<u8>) -> bool {
    s.len() > 0 && all_digits(s)
}

/// The unsigned number grammar: `digits` or `digits . digits`. This is the
/// library's own grammar for number-valued leaves, deliberately plain: it
/// admits leading zeros and has no exponent form, where a host codec that
/// parses into a binary float would reject `01` and accept `3e2`.
pub open spec fn is_unsigned_number(b: Seq<u8>) -> bool {
    digits_nonempty(b) || exists|k: int|
        0 < k < b.len() && b[k] == DOT && digits_nonempty(#[trigger] b.subrange(0, k))
            && digits_nonempty(b.subrange(k + 1, b.len() as int))
}

/// The number grammar: `-? digits` or `-? digits . digits`.
pub open spec fn is_number(s: Seq<u8>) -> bool {
    if s.len() > 0 && s[0] == MINUS {
        is_unsigned_number(s.subrange(1, s.len() as int))
    } else {
        is_unsigned_number(s)
    }
}

/// Whether `v` is a valid encoding for a leaf of kind `k`.
pub open spec fn valid_value(k: KindV, v: Seq<u8>) -> bool {
    match k {
        KindV::Number => is_number(v),
        KindV::Choice(cs) => cs.contains(v),
        KindV::Opaque => true,
    }
}

/// Numeric value of a digit string, most significant first.
pub open spec fn digits_val(s: Seq<u8>) -> nat
    decreases s.len(),
{
    if s.len() == 0 {
        0
    } else {
        digits_val(s.drop_last()) * 10 + (s.last() - D0) as nat
    }
}

/// The array-index grammar: one or more decimal digits.
pub open spec fn index_of(s: Seq<u8>) -> Option<nat> {
    if digits_nonempty(s) {
        Some(digits_val(s))
    } else {
        None
    }
}

/// Decimal rendering of `n`, no leading zeros.
pub open spec fn dec_digits(n: nat) -> Seq<u8>
    decreases n,
{
    if n < 10 {
        seq![(D0 + n) as u8]
    } else {
        dec_digits(n / 10).push((D0 + n % 10) as u8)
    }
}

/// Digit count of `n` with `index_width(0) == 0`: the width budgeted for the
/// widest index of an array of length `n + 1`.
pub open spec fn index_width(n: nat) -> nat
    decreases n,
{
    if n == 0 {
        0
    } else {
        1 + index_width(n / 10)
    }
}

/// One byte for the separator, unless the child contributes no path bytes.
pub open spec fn sep_len(child_size: nat) -> nat {
    if child_size == 0 {
        0
    } else {
        1
    }
}

/// The maximum number of segments from this node to any leaf, counting one
/// sentinel level for the path-is-complete step.
pub open spec fn meta_depth(n: NodeV) -> nat
    decreases n,
{
    match n {
        NodeV::Leaf(..) => 1,
        NodeV::Atomic(..) => 1,
        NodeV::Record(fs) => 1 + fields_depth(fs, 0),
        NodeV::Array(items) => 1 + if items.len() > 0 {
            meta_depth(items[0])
        } else {
            0
        },
    }
}

pub open spec fn fields_depth(fs: Seq<FieldV>, i: int) -> nat
    decreases fs, fs.len() - i,
{
    if i < 0 || i >= fs.len() {
        0
    } else {
        let d = meta_depth(fs[i].node);
        let r = fields_depth(fs, i + 1);
        if d >= r {
            d
        } else {
            r
        }
    }
}

/// The maximum byte length of any fully qualified path within this node.
pub open spec fn meta_size(n: NodeV) -> nat
    decreases n,
{
    match n {
        NodeV::Leaf(..) => 0,
        NodeV::Atomic(..) => 0,
        NodeV::Record(fs) => fields_size(fs, 0),
        NodeV::Array(items) => if items.len() == 0 {
            0
        } else {
            index_width((items.len() - 1) as nat) + sep_len(meta_size(items[0])) + meta_size(
                items[0],
            )
        },
    }
}

pub open spec fn fields_size(fs: Seq<FieldV>, i: int) -> nat
    decreases fs, fs.len() - i,
{
    if i < 0 || i >= fs.len() {
        0
    } else {
        let s = fs[i].name.len() + sep_len(meta_size(fs[i].node)) + meta_size(fs[i].node);
        let r = fields_size(fs, i + 1);
        if s >= r {
            s
        } else {
            r
        }
    }
}

/// The number of addressable leaves below this node.
pub open spec fn leaf_count(n: NodeV) -> nat
    decreases n,
{
    match n {
        NodeV::Leaf(..) => 1,
        NodeV::Atomic(..) => 1,
        NodeV::Record(fs) => fields_count(fs, 0),
        NodeV::Array(items) => items_count(items, 0),
    }
}

pub open spec fn fields_count(fs: Seq<FieldV>, i: int) -> nat
    decreases fs, fs.len() - i,
{
    if i < 0 || i >= fs.len() {
        0
    } else {
        leaf_count(fs[i].node) + fields_count(fs, i + 1)
    }
}

pub open spec fn items_count(items: Seq<NodeV>, i: int) -> nat
    decreases items, items.len() - i,
{
    if i < 0 || i >= items.len() {
        0
    } else {
        leaf_count(items[i]) + items_count(items, i + 1)
    }
}

/// A child's relative path under its own segment.
pub open spec fn join_path(name: Seq<u8>, p: Seq<u8>) -> Seq<u8> {
    if p.len() == 0 {
        name
    } else {
        name + seq![SLASH] + p
    }
}

pub open spec fn prefix_entries(name: Seq<u8>, es: Seq<(Seq<u8>, Seq<u8>)>) -> Seq<
    (Seq<u8>, Seq<u8>),
> {
    Seq::new(es.len(), |i: int| (join_path(name, es[i].0), es[i].1))
}

/// Every leaf below `n`, in depth-first preorder: its relative path paired
/// with its current value.
pub open spec fn entries(n: NodeV) -> Seq<(Seq<u8>, Seq<u8>)>
    decreases n,
{
    match n {
        NodeV::Leaf(_, v) => seq![(Seq::<u8>::empty(), v)],
        NodeV::Atomic(_, v) => seq![(Seq::<u8>::empty(), v)],
        NodeV::Record(fs) => fields_entries(fs, 0),
        NodeV::Array(items) => items_entries(items, 0),
    }
}

pub open spec fn fields_entries(fs: Seq<FieldV>, i: int) -> Seq<(Seq<u8>, Seq<u8>)>
    decreases fs, fs.len() - i,
{
    if i < 0 || i >= fs.len() {
        Seq::empty()
    } else {
        prefix_entries(fs[i].name, entries(fs[i].node)) + fields_entries(fs, i + 1)
    }
}

pub open spec fn items_entries(items: Seq<NodeV>, i: int) -> Seq<(Seq<u8>, Seq<u8>)>
    decreases items, items.len() - i,
{
    if i < 0 || i >= items.len() {
        Seq::empty()
    } else {
        prefix_entries(dec_digits(i as nat), entries(items[i])) + items_entries(items, i + 1)
    }
}

/// The paths of a sequence of leaf entries.
pub open spec fn path_seq(es: Seq<(Seq<u8>, Seq<u8>)>) -> Seq<Seq<u8>> {
    Seq::new(es.len(), |i: int| es[i].0)
}

/// The fully qualified relative path of every leaf, in enumeration order.
pub open spec fn leaf_paths(n: NodeV) -> Seq<Seq<u8>> {
    path_seq(entries(n))
}

/// Every field's own path contribution is within the record's `fields_size`,
/// and `fields_size` shrinks as `i` grows.
pub proof fn lemma_fields_size_at(fs: Seq<FieldV>, i: int, j: int)
    requires
        0 <= i <= j < fs.len(),
    ensures
        fields_size(fs, i) >= fs[j].name.len() + sep_len(meta_size(fs[j].node)) + meta_size(
            fs[j].node,
        ),
        fields_size(fs, i) >= fields_size(fs, j),
    decreases j - i,
{
    if i < j {
        lemma_fields_size_at(fs, i + 1, j);
    }
}

pub proof fn lemma_fields_depth_at(fs: Seq<FieldV>, i: int, j: int)
    requires
        0 <= i <= j < fs.len(),
    ensures
        fields_depth(fs, i) >= meta_depth(fs[j].node),
        fields_depth(fs, i) >= fields_depth(fs, j),
    decreases j - i,
{
    if i < j {
        lemma_fields_depth_at(fs, i + 1, j);
    }
}

/// Well-formedness: leaf values valid for their kind, records nonempty with
/// distinct slash-free nonempty field names, arrays nonempty and uniform in
/// metadata.
pub open spec fn wf(n: NodeV) -> bool
    decreases n,
{
    match n {
        NodeV::Leaf(k, v) => valid_value(k, v),
        NodeV::Atomic(k, v) => valid_value(k, v),
        NodeV::Record(fs) => fs.len() > 0 && fields_wf(fs, 0) && (forall|i: int, j: int|
            0 <= i < j < fs.len() ==> fs[i].name != fs[j].name),
        NodeV::Array(items) => items.len() > 0 && items_wf(items, 0) && (forall|i: int|
            0 <= i < items.len() ==> #[trigger] meta_depth(items[i]) == meta_depth(items[0])
                && meta_size(items[i]) == meta_size(items[0])),
    }
}

pub open spec fn fields_wf(fs: Seq<FieldV>, i: int) -> bool
    decreases fs, fs.len() - i,
{
    if i < 0 || i >= fs.len() {
        true
    } else {
        fs[i].name.len() > 0 && !fs[i].name.contains(SLASH) && wf(fs[i].node) && fields_wf(
            fs,
            i + 1,
        )
    }
}

pub open spec fn items_wf(items: Seq<NodeV>, i: int) -> bool
    decreases items, items.len() - i,
{
    if i < 0 || i >= items.len() {
        true
    } else {
        wf(items[i]) && items_wf(items, i + 1)
    }
}

/// The index of the first field of `fs` named `name`, or `-1`.
pub open spec fn field_at(fs: Seq<FieldV>, name: Seq<u8>) -> int
    decreases fs.len(),
{
    if fs.len() == 0 {
        -1
    } else if fs[0].name == name {
        0
    } else {
        let r = field_at(fs.drop_first(), name);
        if r < 0 {
            -1
        } else {
            1 + r
        }
    }
}

/// Whether some field of `fs` is named `name`.
pub open spec fn has_field(fs: Seq<FieldV>, name: Seq<u8>) -> bool {
    field_at(fs, name) >= 0
}

/// `field_at` finds exactly the first match.
pub proof fn lemma_field_at(fs: Seq<FieldV>, name: Seq<u8>, j: int)
    requires
        0 <= j <= fs.len(),
        forall|k: int| 0 <= k < j ==> fs[k].name != name,
        j < fs.len() ==> fs[j].name == name,
    ensures
        field_at(fs, name) == if j < fs.len() {
            j
        } else {
            -1
        },
    decreases j,
{
    if j == 0 {
        if fs.len() > 0 && fs[0].name != name {
            lemma_field_at_none(fs.drop_first(), name);
        }
    } else {
        lemma_field_at(fs.drop_first(), name, j - 1);
    }
}

/// When no field matches, `field_at` reports `-1`.
pub proof fn lemma_field_at_none(fs: Seq<FieldV>, name: Seq<u8>)
    requires
        forall|k: int| 0 <= k < fs.len() ==> fs[k].name != name,
    ensures
        field_at(fs, name) == -1,
    decreases fs.len(),
{
    if fs.len() > 0 {
        lemma_field_at_none(fs.drop_first(), name);
    }
}

/// A found index is in range and matches.
pub proof fn lemma_field_at_found(fs: Seq<FieldV>, name: Seq<u8>)
    requires
        field_at(fs, name) >= 0,
    ensures
        field_at(fs, name) < fs.len(),
        fs[field_at(fs, name)].name == name,
    decreases fs.len(),
{
    if fs.len() > 0 && fs[0].name != name {
        lemma_field_at_found(fs.drop_first(), name);
    }
}

/// What `set` does: the updated tree, or the error, for a path already split
/// into segments.
pub open spec fn set_spec(n: NodeV, segs: Seq<Seq<u8>>, val: Seq<u8>) -> Result<NodeV, Error>
    decreases segs.len(),
{
    match n {
        NodeV::Leaf(k, _) => if segs.len() > 0 {
            Err(Error::PathTooLong)
        } else if valid_value(k, val) {
            Ok(NodeV::Leaf(k, val))
        } else {
            Err(Error::DecodeError)
        },
        NodeV::Atomic(k, _) => if segs.len() > 0 {
            Err(Error::PathTooLong)
        } else if valid_value(k, val) {
            Ok(NodeV::Atomic(k, val))
        } else {
            Err(Error::DecodeError)
        },
        NodeV::Record(fs) => if segs.len() == 0 {
            Err(Error::PathTooShort)
        } else if !has_field(fs, segs[0]) {
            Err(Error::MissingField)
        } else {
            let j = field_at(fs, segs[0]);
            match set_spec(fs[j].node, segs.drop_first(), val) {
                Ok(c) => Ok(NodeV::Record(fs.update(j, FieldV { name: fs[j].name, node: c }))),
                Err(e) => Err(e),
            }
        },
        NodeV::Array(items) => if segs.len() == 0 {
            Err(Error::PathTooShort)
        } else {
            match index_of(segs[0]) {
                Option::None => Err(Error::BadIndex),
                Option::Some(i) => if i >= items.len() {
                    Err(Error::BadIndex)
                } else {
                    match set_spec(items[i as int], segs.drop_first(), val) {
                        Ok(c) => Ok(NodeV::Array(items.update(i as int, c))),
                        Err(e) => Err(e),
                    }
                },
            }
        },
    }
}

/// What `get` finds: the leaf's stored value, or the error, for a path
/// already split into segments.
pub open spec fn get_spec(n: NodeV, segs: Seq<Seq<u8>>) -> Result<Seq<u8>, Error>
    decreases segs.len(),
{
    match n {
        NodeV::Leaf(_, v) => if segs.len() > 0 {
            Err(Error::PathTooLong)
        } else {
            Ok(v)
        },
        NodeV::Atomic(_, v) => if segs.len() > 0 {
            Err(Error::PathTooLong)
        } else {
            Ok(v)
        },
        NodeV::Record(fs) => if segs.len() == 0 {
            Err(Error::PathTooShort)
        } else if !has_field(fs, segs[0]) {
            Err(Error::MissingField)
        } else {
            get_spec(fs[field_at(fs, segs[0])].node, segs.drop_first())
        },
        NodeV::Array(items) => if segs.len() == 0 {
            Err(Error::PathTooShort)
        } else {
            match index_of(segs[0]) {
                Option::None => Err(Error::BadIndex),
                Option::Some(i) => if i >= items.len() {
                    Err(Error::BadIndex)
                } else {
                    get_spec(items[i as int], segs.drop_first())
                },
            }
        },
    }
}

/// Index of the first `/` in `p`, or `p.len()` if there is none.
pub open spec fn first_slash(p: Seq<u8>) -> int
    decreases p.len(),
{
    if p.len() == 0 {
        0
    } else if p[0] == SLASH {
        0
    } else {
        1 + first_slash(p.drop_first())
    }
}

/// Split of a nonempty path text into segments at each `/`.
pub open spec fn split_ne(p: Seq<u8>) -> Seq<Seq<u8>>
    decreases p.len(),
{
    let k = first_slash(p);
    if k < 0 || k >= p.len() {
        seq![p]
    } else {
        seq![p.subrange(0, k)] + split_ne(p.subrange(k + 1, p.len() as int))
    }
}

/// Path text to segments; the empty text addresses the root and has none.
pub open spec fn split_path(p: Seq<u8>) -> Seq<Seq<u8>> {
    if p.len() == 0 {
        Seq::empty()
    } else {
        split_ne(p)
    }
}

} // verus!
