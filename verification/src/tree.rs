//! The executable settings tree: records, fixed-size arrays, atomic
//! subtrees and leaves, with path-addressed `set` and `get`, metadata, and
//! enumeration of every leaf path.

use vstd::prelude::*;

verus! {

use crate::Error;
use crate::model::{
    KindV, FieldV, NodeV, valid_value, meta_depth, meta_size, fields_depth, fields_size,
    index_width, sep_len, entries, fields_entries, items_entries, prefix_entries, leaf_paths,
    path_seq, join_path, set_spec, get_spec, split_path, field_at, has_field, lemma_field_at,
    index_of, dec_digits, SLASH,
};
use crate::text::{seq_views, bytes_eq, copy_range, check_number, parse_index, render_index,
    split_segments, width_of};

/// Which encodings a leaf accepts.
pub enum ValueKind {
    /// A decimal number, optionally signed, optionally with a fraction part;
    /// see `model::is_number` for the exact grammar and how it differs from
    /// a binary-float codec at the edges.
    Number,
    /// Exactly one of a fixed list of encodings (an enumeration's variants).
    Choice(Vec<Vec<u8>>),
    /// Any bytes; used for atomic subtrees whose unit value is kept whole.
    Opaque,
}

/// A leaf: the accepted encodings and the current value text.
pub struct Leaf {
    pub kind: ValueKind,
    pub value: Vec<u8>,
}

/// A named child of a record.
pub struct Field {
    pub name: Vec<u8>,
    pub node: Node,
}

/// A node of the settings tree.
pub enum Node {
    /// A leaf value, addressable only at its own path.
    Leaf(Leaf),
    /// An atomic subtree: set and read as one unit, interior invisible.
    Atomic(Leaf),
    /// A record of named fields, enumerated in declaration order.
    Record(Vec<Field>),
    /// A fixed-size array of uniform children, addressed by decimal index.
    Array(Vec<Node>),
}

/// Aggregated path bounds of a node, computed bottom-up.
pub struct Metadata {
    /// The maximum byte length of any fully qualified path within the node.
    pub max_topic_size: usize,
    /// The maximum segment count to any leaf, plus a sentinel level.
    pub max_depth: usize,
}

pub open spec fn kind_view(k: ValueKind) -> KindV {
    match k {
        ValueKind::Number => KindV::Number,
        ValueKind::Choice(cs) => KindV::Choice(seq_views(cs@)),
        ValueKind::Opaque => KindV::Opaque,
    }
}

pub open spec fn node_view(n: Node) -> NodeV
    decreases n,
{
    match n {
        Node::Leaf(l) => NodeV::Leaf(kind_view(l.kind), l.value@),
        Node::Atomic(l) => NodeV::Atomic(kind_view(l.kind), l.value@),
        Node::Record(fs) => NodeV::Record(fields_view(fs@, 0)),
        Node::Array(items) => NodeV::Array(items_view(items@, 0)),
    }
}

pub open spec fn fields_view(fs: Seq<Field>, i: int) -> Seq<FieldV>
    decreases fs, fs.len() - i,
{
    if i < 0 || i >= fs.len() {
        Seq::empty()
    } else {
        seq![FieldV { name: fs[i].name@, node: node_view(fs[i].node) }] + fields_view(fs, i + 1)
    }
}

pub open spec fn items_view(items: Seq<Node>, i: int) -> Seq<NodeV>
    decreases items, items.len() - i,
{
    if i < 0 || i >= items.len() {
        Seq::empty()
    } else {
        seq![node_view(items[i])] + items_view(items, i + 1)
    }
}

pub proof fn lemma_fields_view(fs: Seq<Field>, i: int)
    requires
        0 <= i <= fs.len(),
    ensures
        fields_view(fs, i).len() == fs.len() - i,
        forall|j: int|
            i <= j < fs.len() ==> #[trigger] fields_view(fs, i)[j - i] == (FieldV {
                name: fs[j].name@,
                node: node_view(fs[j].node),
            }),
    decreases fs.len() - i,
{
    if i < fs.len() {
        lemma_fields_view(fs, i + 1);
        let head = FieldV { name: fs[i].name@, node: node_view(fs[i].node) };
        assert(fields_view(fs, i) == seq![head] + fields_view(fs, i + 1));
        assert forall|j: int| i <= j < fs.len() implies #[trigger] fields_view(fs, i)[j - i]
            == (FieldV { name: fs[j].name@, node: node_view(fs[j].node) }) by {
            if j > i {
                assert((seq![head] + fields_view(fs, i + 1))[j - i] == fields_view(fs, i + 1)[j - i
                    - 1]);
                assert(fields_view(fs, i + 1)[j - (i + 1)] == (FieldV {
                    name: fs[j].name@,
                    node: node_view(fs[j].node),
                }));
            } else {
                assert((seq![head] + fields_view(fs, i + 1))[0] == head);
            }
        }
    }
}

pub proof fn lemma_items_view(items: Seq<Node>, i: int)
    requires
        0 <= i <= items.len(),
    ensures
        items_view(items, i).len() == items.len() - i,
        forall|j: int|
            i <= j < items.len() ==> #[trigger] items_view(items, i)[j - i] == node_view(items[j]),
    decreases items.len() - i,
{
    if i < items.len() {
        lemma_items_view(items, i + 1);
        let head = node_view(items[i]);
        assert(items_view(items, i) == seq![head] + items_view(items, i + 1));
        assert forall|j: int| i <= j < items.len() implies #[trigger] items_view(items, i)[j - i]
            == node_view(items[j]) by {
            if j > i {
                assert((seq![head] + items_view(items, i + 1))[j - i] == items_view(
                    items,
                    i + 1,
                )[j - i - 1]);
                assert(items_view(items, i + 1)[j - (i + 1)] == node_view(items[j]));
            } else {
                assert((seq![head] + items_view(items, i + 1))[0] == head);
            }
        }
    }
}

pub proof fn lemma_fields_view0(fs: Seq<Field>)
    ensures
        fields_view(fs, 0).len() == fs.len(),
        forall|j: int|
            0 <= j < fs.len() ==> #[trigger] fields_view(fs, 0)[j] == (FieldV {
                name: fs[j].name@,
                node: node_view(fs[j].node),
            }),
{
    lemma_fields_view(fs, 0);
    assert forall|j: int| 0 <= j < fs.len() implies #[trigger] fields_view(fs, 0)[j] == (FieldV {
        name: fs[j].name@,
        node: node_view(fs[j].node),
    }) by {
        assert(fields_view(fs, 0)[j - 0] == (FieldV {
            name: fs[j].name@,
            node: node_view(fs[j].node),
        }));
    }
}

pub proof fn lemma_items_view0(items: Seq<Node>)
    ensures
        items_view(items, 0).len() == items.len(),
        forall|j: int|
            0 <= j < items.len() ==> #[trigger] items_view(items, 0)[j] == node_view(items[j]),
{
    lemma_items_view(items, 0);
    assert forall|j: int| 0 <= j < items.len() implies #[trigger] items_view(items, 0)[j]
        == node_view(items[j]) by {
        assert(items_view(items, 0)[j - 0] == node_view(items[j]));
    }
}

/// Whether `v` is a valid encoding for a leaf of kind `k`.
#[verifier::loop_isolation(false)]
pub fn check_value(k: &ValueKind, v: &[u8]) -> (r: bool)
    ensures
        r == valid_value(kind_view(*k), v@),
{
    match k {
        ValueKind::Number => check_number(v),
        ValueKind::Choice(cs) => {
            let mut i: usize = 0;
            while i < cs.len()
                invariant
                    0 <= i <= cs@.len(),
                    forall|j: int| 0 <= j < i ==> #[trigger] cs@[j]@ != v@,
                decreases cs@.len() - i,
            {
                if bytes_eq(cs[i].as_slice(), v) {
                    proof {
                        assert(seq_views(cs@)[i as int] == v@);
                    }
                    return true;
                }
                i += 1;
            }
            proof {
                assert forall|j: int| 0 <= j < seq_views(cs@).len() implies #[trigger] seq_views(
                    cs@,
                )[j] != v@ by {
                    assert(seq_views(cs@)[j] == cs@[j]@);
                }
            }
            false
        },
        ValueKind::Opaque => true,
    }
}

/// The first field of `fs` named `name`, if any.
#[verifier::loop_isolation(false)]
fn find_field(fs: &Vec<Field>, name: &[u8]) -> (r: Option<usize>)
    ensures
        match r {
            Option::Some(j) => j == field_at(fields_view(fs@, 0), name@) && j < fs@.len(),
            Option::None => !has_field(fields_view(fs@, 0), name@),
        },
{
    proof {
        lemma_fields_view0(fs@);
    }
    let mut i: usize = 0;
    while i < fs.len()
        invariant
            0 <= i <= fs@.len(),
            forall|j: int| 0 <= j < i ==> #[trigger] fs@[j].name@ != name@,
        decreases fs@.len() - i,
    {
        if bytes_eq(fs[i].name.as_slice(), name) {
            proof {
                lemma_fields_view0(fs@);
                lemma_field_at(fields_view(fs@, 0), name@, i as int);
            }
            return Some(i);
        }
        i += 1;
    }
    proof {
        lemma_field_at(fields_view(fs@, 0), name@, fs@.len() as int);
    }
    None
}

impl Node {
    /// The abstract tree this node stands for.
    pub open spec fn view(&self) -> NodeV {
        node_view(*self)
    }

    /// Read the leaf value addressed by the already split path
    /// `segs[si..]`, exactly as `get_spec` states.
    pub fn get_at<'a>(&'a self, segs: &Vec<Vec<u8>>, si: usize) -> (r: Result<&'a Vec<u8>, Error>)
        requires
            si <= segs@.len(),
        ensures
            match (r, get_spec(self@, seq_views(segs@).skip(si as int))) {
                (Result::Ok(v), Result::Ok(sv)) => v@ == sv,
                (Result::Err(e), Result::Err(se)) => e == se,
                _ => false,
            },
        decreases segs@.len() - si,
    {
        let ghost sv = seq_views(segs@).skip(si as int);
        proof {
            if si < segs@.len() {
                assert(sv[0] == segs@[si as int]@);
                assert(sv.drop_first() =~= seq_views(segs@).skip(si + 1 as int));
            }
        }
        match self {
            Node::Leaf(l) => {
                if si < segs.len() {
                    Err(Error::PathTooLong)
                } else {
                    Ok(&l.value)
                }
            },
            Node::Atomic(l) => {
                if si < segs.len() {
                    Err(Error::PathTooLong)
                } else {
                    Ok(&l.value)
                }
            },
            Node::Record(fs) => {
                if si >= segs.len() {
                    return Err(Error::PathTooShort);
                }
                match find_field(fs, segs[si].as_slice()) {
                    Option::None => Err(Error::MissingField),
                    Option::Some(j) => {
                        proof {
                            lemma_fields_view0(fs@);
                        }
                        fs[j].node.get_at(segs, si + 1)
                    },
                }
            },
            Node::Array(items) => {
                if si >= segs.len() {
                    return Err(Error::PathTooShort);
                }
                let n = items.len();
                match parse_index(segs[si].as_slice()) {
                    Option::None => {
                        proof {
                            lemma_items_view0(items@);
                            if index_of(sv[0]) is Some {
                                assert(index_of(sv[0]).unwrap() > usize::MAX);
                                assert(items_view(items@, 0).len() == n <= usize::MAX);
                            }
                        }
                        Err(Error::BadIndex)
                    },
                    Option::Some(i) => {
                        proof {
                            lemma_items_view0(items@);
                        }
                        if i >= items.len() {
                            Err(Error::BadIndex)
                        } else {
                            items[i].get_at(segs, si + 1)
                        }
                    },
                }
            },
        }
    }

    /// A copy of this tree with the leaf addressed by `segs[si..]` set to
    /// `val`; the tree itself is untouched. Exactly as `set_spec` states.
    #[verifier::loop_isolation(false)]
    pub fn with_set(&self, segs: &Vec<Vec<u8>>, si: usize, val: &[u8]) -> (r: Result<Node, Error>)
        requires
            si <= segs@.len(),
        ensures
            match (r, set_spec(self@, seq_views(segs@).skip(si as int), val@)) {
                (Result::Ok(n2), Result::Ok(sn)) => n2@ == sn,
                (Result::Err(e), Result::Err(se)) => e == se,
                _ => false,
            },
        decreases segs@.len() - si,
    {
        let ghost sv = seq_views(segs@).skip(si as int);
        proof {
            if si < segs@.len() {
                assert(sv[0] == segs@[si as int]@);
                assert(sv.drop_first() =~= seq_views(segs@).skip(si + 1 as int));
            }
        }
        match self {
            Node::Leaf(l) => {
                if si < segs.len() {
                    Err(Error::PathTooLong)
                } else if check_value(&l.kind, val) {
                    Ok(Node::Leaf(Leaf { kind: clone_kind(&l.kind), value: slice_to_vec(val) }))
                } else {
                    Err(Error::DecodeError)
                }
            },
            Node::Atomic(l) => {
                if si < segs.len() {
                    Err(Error::PathTooLong)
                } else if check_value(&l.kind, val) {
                    Ok(Node::Atomic(Leaf { kind: clone_kind(&l.kind), value: slice_to_vec(val) }))
                } else {
                    Err(Error::DecodeError)
                }
            },
            Node::Record(fs) => {
                if si >= segs.len() {
                    return Err(Error::PathTooShort);
                }
                match find_field(fs, segs[si].as_slice()) {
                    Option::None => Err(Error::MissingField),
                    Option::Some(j) => {
                        proof {
                            lemma_fields_view0(fs@);
                        }
                        match fs[j].node.with_set(segs, si + 1, val) {
                            Result::Err(e) => Err(e),
                            Result::Ok(child) => {
                                let out = rebuild_fields(fs, 0, j, Some(child));
                                proof {
                                    lemma_fields_view0(out@);
                                    let fv = fields_view(fs@, 0);
                                    let target = fv.update(
                                        j as int,
                                        FieldV {
                                            name: fv[j as int].name,
                                            node: set_spec(
                                                fv[j as int].node,
                                                sv.drop_first(),
                                                val@,
                                            ).unwrap(),
                                        },
                                    );
                                    assert(fields_view(out@, 0) =~= target);
                                }
                                Ok(Node::Record(out))
                            },
                        }
                    },
                }
            },
            Node::Array(items) => {
                if si >= segs.len() {
                    return Err(Error::PathTooShort);
                }
                let n = items.len();
                match parse_index(segs[si].as_slice()) {
                    Option::None => {
                        proof {
                            lemma_items_view0(items@);
                            if index_of(sv[0]) is Some {
                                assert(index_of(sv[0]).unwrap() > usize::MAX);
                                assert(items_view(items@, 0).len() == n <= usize::MAX);
                            }
                        }
                        Err(Error::BadIndex)
                    },
                    Option::Some(i) => {
                        proof {
                            lemma_items_view0(items@);
                        }
                        if i >= items.len() {
                            Err(Error::BadIndex)
                        } else {
                            match items[i].with_set(segs, si + 1, val) {
                                Result::Err(e) => Err(e),
                                Result::Ok(child) => {
                                    let out = rebuild_items(items, 0, i, Some(child));
                                    proof {
                                        lemma_items_view0(out@);
                                        let iv = items_view(items@, 0);
                                        let target = iv.update(
                                            i as int,
                                            set_spec(iv[i as int], sv.drop_first(), val@).unwrap(),
                                        );
                                        assert(items_view(out@, 0) =~= target);
                                    }
                                    Ok(Node::Array(out))
                                },
                            }
                        }
                    },
                }
            },
        }
    }
}

/// An owned copy of a byte slice.
pub fn slice_to_vec(v: &[u8]) -> (r: Vec<u8>)
    ensures
        r@ == v@,
{
    let r = copy_range(v, 0, v.len());
    proof {
        assert(v@.subrange(0, v@.len() as int) =~= v@);
    }
    r
}

/// A copy of a leaf kind with the same accepted encodings.
pub fn clone_kind(k: &ValueKind) -> (r: ValueKind)
    ensures
        kind_view(r) == kind_view(*k),
{
    match k {
        ValueKind::Number => ValueKind::Number,
        ValueKind::Opaque => ValueKind::Opaque,
        ValueKind::Choice(cs) => {
            let mut out: Vec<Vec<u8>> = Vec::new();
            let mut i: usize = 0;
            while i < cs.len()
                invariant
                    0 <= i <= cs@.len(),
                    out@.len() == i,
                    forall|j: int| 0 <= j < i ==> #[trigger] out@[j]@ == cs@[j]@,
                decreases cs@.len() - i,
            {
                out.push(slice_to_vec(cs[i].as_slice()));
                i += 1;
            }
            proof {
                assert(seq_views(out@) =~= seq_views(cs@));
            }
            ValueKind::Choice(out)
        },
    }
}

/// A copy of a tree with the same abstract value.
pub fn clone_node(n: &Node) -> (r: Node)
    ensures
        node_view(r) == node_view(*n),
    decreases *n,
{
    match n {
        Node::Leaf(l) => Node::Leaf(
            Leaf { kind: clone_kind(&l.kind), value: slice_to_vec(l.value.as_slice()) },
        ),
        Node::Atomic(l) => Node::Atomic(
            Leaf { kind: clone_kind(&l.kind), value: slice_to_vec(l.value.as_slice()) },
        ),
        Node::Record(fs) => {
            let out = clone_fields(fs, 0);
            proof {
                lemma_fields_view0(out@);
                lemma_fields_view0(fs@);
                assert(fields_view(out@, 0) =~= fields_view(fs@, 0));
            }
            Node::Record(out)
        },
        Node::Array(items) => {
            let out = clone_items(items, 0);
            proof {
                lemma_items_view0(out@);
                lemma_items_view0(items@);
                assert(items_view(out@, 0) =~= items_view(items@, 0));
            }
            Node::Array(out)
        },
    }
}

/// Copies of the fields of `fs` from `i` on.
fn clone_fields(fs: &Vec<Field>, i: usize) -> (r: Vec<Field>)
    requires
        i <= fs@.len(),
    ensures
        r@.len() == fs@.len() - i,
        forall|k: int|
            0 <= k < fs@.len() - i ==> #[trigger] r@[k].name@ == fs@[i + k].name@ && node_view(
                r@[k].node,
            ) == node_view(fs@[i + k].node),
    decreases fs@, fs@.len() - i,
{
    if i >= fs.len() {
        Vec::new()
    } else {
        let head = Field {
            name: slice_to_vec(fs[i].name.as_slice()),
            node: clone_node(&fs[i].node),
        };
        let mut rest = clone_fields(fs, i + 1);
        let ghost restv = rest@;
        let mut r: Vec<Field> = Vec::new();
        r.push(head);
        r.append(&mut rest);
        proof {
            assert forall|k: int| 0 <= k < fs@.len() - i implies #[trigger] r@[k].name@ == fs@[i
                + k].name@ && node_view(r@[k].node) == node_view(fs@[i + k].node) by {
                if k > 0 {
                    assert(r@[k] == restv[k - 1]);
                    assert(restv[k - 1].name@ == fs@[i + 1 + (k - 1)].name@ && node_view(
                        restv[k - 1].node,
                    ) == node_view(fs@[i + 1 + (k - 1)].node));
                    assert(i + 1 + (k - 1) == i + k);
                } else {
                    assert(r@[0] == head);
                }
            }
        }
        r
    }
}

/// Copies of the elements of `items` from `i` on.
fn clone_items(items: &Vec<Node>, i: usize) -> (r: Vec<Node>)
    requires
        i <= items@.len(),
    ensures
        r@.len() == items@.len() - i,
        forall|k: int|
            0 <= k < items@.len() - i ==> node_view(#[trigger] r@[k]) == node_view(items@[i + k]),
    decreases items@, items@.len() - i,
{
    if i >= items.len() {
        Vec::new()
    } else {
        let head = clone_node(&items[i]);
        let mut rest = clone_items(items, i + 1);
        let ghost restv = rest@;
        let mut r: Vec<Node> = Vec::new();
        r.push(head);
        r.append(&mut rest);
        proof {
            assert forall|k: int| 0 <= k < items@.len() - i implies node_view(#[trigger] r@[k])
                == node_view(items@[i + k]) by {
                if k > 0 {
                    assert(r@[k] == restv[k - 1]);
                    assert(node_view(restv[k - 1]) == node_view(items@[i + 1 + (k - 1)]));
                    assert(i + 1 + (k - 1) == i + k);
                } else {
                    assert(r@[0] == head);
                }
            }
        }
        r
    }
}

/// Copies of the fields of `fs` from `i` on, with the field at `j` given
/// the node `child` instead of a copy of its own.
fn rebuild_fields(fs: &Vec<Field>, i: usize, j: usize, child: Option<Node>) -> (r: Vec<Field>)
    requires
        i <= fs@.len(),
        j < fs@.len(),
        (i <= j) == (child is Some),
    ensures
        r@.len() == fs@.len() - i,
        forall|k: int| 0 <= k < fs@.len() - i ==> #[trigger] r@[k].name@ == fs@[i + k].name@,
        forall|k: int|
            0 <= k < fs@.len() - i && i + k != j ==> node_view(#[trigger] r@[k].node) == node_view(
                fs@[i + k].node,
            ),
        i <= j ==> node_view(r@[j - i].node) == node_view(child.unwrap()),
    decreases fs@.len() - i,
{
    if i >= fs.len() {
        Vec::new()
    } else {
        let mut child = child;
        let head_node: Node = if i == j {
            child.take().unwrap()
        } else {
            clone_node(&fs[i].node)
        };
        let ghost headv = node_view(head_node);
        let head = Field { name: slice_to_vec(fs[i].name.as_slice()), node: head_node };
        let mut rest = rebuild_fields(fs, i + 1, j, child);
        let ghost restv = rest@;
        let mut r: Vec<Field> = Vec::new();
        r.push(head);
        r.append(&mut rest);
        proof {
            assert forall|k: int| 0 <= k < fs@.len() - i implies #[trigger] r@[k].name@ == fs@[i
                + k].name@ by {
                if k > 0 {
                    assert(r@[k] == restv[k - 1]);
                    assert(restv[k - 1].name@ == fs@[i + 1 + (k - 1)].name@);
                    assert(i + 1 + (k - 1) == i + k);
                } else {
                    assert(r@[0] == head);
                }
            }
            assert forall|k: int| 0 <= k < fs@.len() - i && i + k != j implies node_view(
                #[trigger] r@[k].node,
            ) == node_view(fs@[i + k].node) by {
                if k > 0 {
                    assert(r@[k] == restv[k - 1]);
                    assert(node_view(restv[k - 1].node) == node_view(fs@[i + 1 + (k - 1)].node));
                    assert(i + 1 + (k - 1) == i + k);
                } else {
                    assert(r@[0] == head);
                }
            }
            if i < j {
                assert(r@[j - i] == restv[j - (i + 1)]);
            } else if i == j {
                assert(r@[0] == head);
            }
        }
        r
    }
}

/// Copies of the elements of `items` from `i` on, with the element at `j`
/// given the node `child` instead of a copy of its own.
fn rebuild_items(items: &Vec<Node>, i: usize, j: usize, child: Option<Node>) -> (r: Vec<Node>)
    requires
        i <= items@.len(),
        j < items@.len(),
        (i <= j) == (child is Some),
    ensures
        r@.len() == items@.len() - i,
        forall|k: int|
            0 <= k < items@.len() - i && i + k != j ==> node_view(#[trigger] r@[k]) == node_view(
                items@[i + k],
            ),
        i <= j ==> node_view(r@[j - i]) == node_view(child.unwrap()),
    decreases items@.len() - i,
{
    if i >= items.len() {
        Vec::new()
    } else {
        let mut child = child;
        let head: Node = if i == j {
            child.take().unwrap()
        } else {
            clone_node(&items[i])
        };
        let mut rest = rebuild_items(items, i + 1, j, child);
        let ghost restv = rest@;
        let mut r: Vec<Node> = Vec::new();
        r.push(head);
        r.append(&mut rest);
        proof {
            assert forall|k: int| 0 <= k < items@.len() - i && i + k != j implies node_view(
                #[trigger] r@[k],
            ) == node_view(items@[i + k]) by {
                if k > 0 {
                    assert(r@[k] == restv[k - 1]);
                    assert(node_view(restv[k - 1]) == node_view(items@[i + 1 + (k - 1)]));
                    assert(i + 1 + (k - 1) == i + k);
                } else {
                    assert(r@[0] == head);
                }
            }
            if i < j {
                assert(r@[j - i] == restv[j - (i + 1)]);
            } else if i == j {
                assert(r@[0] == head);
            }
        }
        r
    }
}

impl Node {
    /// Apply a set through a slash-separated path: on success the addressed
    /// leaf holds `value`; on any error the tree is exactly as it was.
    pub fn set(&mut self, path: &[u8], value: &[u8]) -> (r: Result<(), Error>)
        ensures
            match r {
                Result::Ok(_) => set_spec(old(self)@, split_path(path@), value@) == Result::<
                    NodeV,
                    Error,
                >::Ok(final(self)@),
                Result::Err(e) => final(self)@ == old(self)@ && set_spec(
                    old(self)@,
                    split_path(path@),
                    value@,
                ) == Result::<NodeV, Error>::Err(e),
            },
    {
        let segs = split_segments(path);
        proof {
            assert(seq_views(segs@).skip(0) =~= split_path(path@));
        }
        match self.with_set(&segs, 0, value) {
            Result::Ok(n) => {
                *self = n;
                Ok(())
            },
            Result::Err(e) => Err(e),
        }
    }

    /// Read the leaf value at a slash-separated path into the first bytes of
    /// `buf`, whose length is the capacity; the rest of `buf` is kept.
    pub fn get(&self, path: &[u8], buf: &mut Vec<u8>) -> (r: Result<usize, Error>)
        ensures
            match get_spec(self@, split_path(path@)) {
                Result::Ok(v) => if v.len() <= old(buf)@.len() {
                    r == Result::<usize, Error>::Ok(v.len() as usize) && final(buf)@ == v + old(
                        buf,
                    )@.skip(v.len() as int)
                } else {
                    r == Result::<usize, Error>::Err(Error::BufferTooSmall) && final(buf)@ == old(
                        buf,
                    )@
                },
                Result::Err(e) => r == Result::<usize, Error>::Err(e) && final(buf)@ == old(buf)@,
            },
    {
        let segs = split_segments(path);
        proof {
            assert(seq_views(segs@).skip(0) =~= split_path(path@));
        }
        match self.get_at(&segs, 0) {
            Result::Err(e) => Err(e),
            Result::Ok(v) => {
                if v.len() > buf.len() {
                    return Err(Error::BufferTooSmall);
                }
                let n = v.len();
                let mut nb = slice_to_vec(v.as_slice());
                let mut i: usize = n;
                while i < buf.len()
                    invariant
                        n <= i <= buf@.len(),
                        nb@ =~= v@ + buf@.subrange(n as int, i as int),
                    decreases buf@.len() - i,
                {
                    nb.push(buf[i]);
                    proof {
                        assert(nb@ =~= v@ + buf@.subrange(n as int, i + 1 as int));
                    }
                    i += 1;
                }
                proof {
                    assert(buf@.subrange(n as int, buf@.len() as int) =~= buf@.skip(n as int));
                }
                *buf = nb;
                Ok(n)
            },
        }
    }

    /// Aggregated path bounds: the byte size of the widest fully qualified
    /// path, and the deepest segment count plus a sentinel level.
    pub fn get_metadata(&self) -> (m: Metadata)
        requires
            meta_size(self@) <= usize::MAX,
            meta_depth(self@) <= usize::MAX,
        ensures
            m.max_topic_size == meta_size(self@),
            m.max_depth == meta_depth(self@),
        decreases *self,
    {
        match self {
            Node::Leaf(_) => Metadata { max_topic_size: 0, max_depth: 1 },
            Node::Atomic(_) => Metadata { max_topic_size: 0, max_depth: 1 },
            Node::Record(fs) => {
                proof {
                    lemma_fields_view0(fs@);
                }
                let inner = meta_fields(fs, 0);
                Metadata { max_topic_size: inner.max_topic_size, max_depth: 1 + inner.max_depth }
            },
            Node::Array(items) => {
                if items.len() == 0 {
                    Metadata { max_topic_size: 0, max_depth: 1 }
                } else {
                    proof {
                        lemma_items_view0(items@);
                    }
                    let cm = meta_items(items);
                    let w = width_of(items.len() - 1);
                    proof {
                        crate::text::lemma_index_width_le((items@.len() - 1) as nat);
                    }
                    let size = if cm.max_topic_size == 0 {
                        w
                    } else {
                        w + 1 + cm.max_topic_size
                    };
                    Metadata { max_topic_size: size, max_depth: 1 + cm.max_depth }
                }
            },
        }
    }

    /// The fully qualified path of every leaf below this node, in
    /// depth-first preorder.
    pub fn list_paths(&self) -> (r: Vec<Vec<u8>>)
        ensures
            seq_views(r@) == leaf_paths(self@),
        decreases *self,
    {
        match self {
            Node::Leaf(_) => {
                let mut r: Vec<Vec<u8>> = Vec::new();
                r.push(Vec::new());
                proof {
                    assert(seq_views(r@) =~= leaf_paths(self@));
                }
                r
            },
            Node::Atomic(_) => {
                let mut r: Vec<Vec<u8>> = Vec::new();
                r.push(Vec::new());
                proof {
                    assert(seq_views(r@) =~= leaf_paths(self@));
                }
                r
            },
            Node::Record(fs) => paths_fields(fs, 0),
            Node::Array(items) => paths_items(items, 0),
        }
    }
}

/// Metadata of the fields of `fs` from `i` on.
fn meta_fields(fs: &Vec<Field>, i: usize) -> (m: Metadata)
    requires
        i <= fs@.len(),
        fields_size(fields_view(fs@, 0), i as int) <= usize::MAX,
        fields_depth(fields_view(fs@, 0), i as int) <= usize::MAX,
    ensures
        m.max_topic_size == fields_size(fields_view(fs@, 0), i as int),
        m.max_depth == fields_depth(fields_view(fs@, 0), i as int),
    decreases fs@, fs@.len() - i,
{
    proof {
        lemma_fields_view0(fs@);
    }
    if i >= fs.len() {
        Metadata { max_topic_size: 0, max_depth: 0 }
    } else {
        let ghost fv = fields_view(fs@, 0);
        let cm = fs[i].node.get_metadata();
        let rest = meta_fields(fs, i + 1);
        let sep: usize = if cm.max_topic_size == 0 {
            0
        } else {
            1
        };
        proof {
            assert(fv[i as int].name.len() + sep_len(meta_size(fv[i as int].node)) + meta_size(
                fv[i as int].node,
            ) <= fields_size(fv, i as int));
        }
        let this_size = fs[i].name.len() + sep + cm.max_topic_size;
        let size = if this_size >= rest.max_topic_size {
            this_size
        } else {
            rest.max_topic_size
        };
        let depth = if cm.max_depth >= rest.max_depth {
            cm.max_depth
        } else {
            rest.max_depth
        };
        Metadata { max_topic_size: size, max_depth: depth }
    }
}

/// Metadata of the first element, which under uniformity bounds them all.
fn meta_items(items: &Vec<Node>) -> (m: Metadata)
    requires
        items@.len() > 0,
        meta_size(node_view(items@[0])) <= usize::MAX,
        meta_depth(node_view(items@[0])) <= usize::MAX,
    ensures
        m.max_topic_size == meta_size(node_view(items@[0])),
        m.max_depth == meta_depth(node_view(items@[0])),
    decreases items@,
{
    items[0].get_metadata()
}

/// For each path `p` of `ps`: `name` alone if `p` is empty, else
/// `name / p`.
#[verifier::loop_isolation(false)]
fn join_all(name: &[u8], ps: &Vec<Vec<u8>>) -> (r: Vec<Vec<u8>>)
    ensures
        seq_views(r@).len() == ps@.len(),
        forall|k: int|
            0 <= k < ps@.len() ==> #[trigger] seq_views(r@)[k] == join_path(
                name@,
                seq_views(ps@)[k],
            ),
{
    let mut r: Vec<Vec<u8>> = Vec::new();
    let mut i: usize = 0;
    while i < ps.len()
        invariant
            0 <= i <= ps@.len(),
            r@.len() == i,
            forall|k: int|
                0 <= k < i ==> #[trigger] seq_views(r@)[k] == join_path(name@, seq_views(ps@)[k]),
        decreases ps@.len() - i,
    {
        let ghost prev = r@;
        let p = &ps[i];
        if p.len() == 0 {
            r.push(slice_to_vec(name));
        } else {
            let mut t = slice_to_vec(name);
            t.push(SLASH);
            let mut tail = slice_to_vec(p.as_slice());
            t.append(&mut tail);
            proof {
                assert(t@ =~= name@ + seq![SLASH] + ps@[i as int]@);
            }
            r.push(t);
        }
        proof {
            assert(r@[i as int]@ == join_path(name@, ps@[i as int]@));
            assert forall|k: int| 0 <= k < i + 1 implies #[trigger] seq_views(r@)[k] == join_path(
                name@,
                seq_views(ps@)[k],
            ) by {
                assert(seq_views(r@)[k] == r@[k]@);
                assert(seq_views(ps@)[k] == ps@[k]@);
                if k < i {
                    assert(r@[k] == prev[k]);
                    assert(seq_views(prev)[k] == prev[k]@);
                    assert(seq_views(prev)[k] == join_path(name@, seq_views(ps@)[k]));
                }
            }
        }
        i += 1;
    }
    r
}

/// The leaf paths contributed by the fields of `fs` from `i` on.
fn paths_fields(fs: &Vec<Field>, i: usize) -> (r: Vec<Vec<u8>>)
    requires
        i <= fs@.len(),
    ensures
        seq_views(r@) == path_seq(fields_entries(fields_view(fs@, 0), i as int)),
    decreases fs@, fs@.len() - i,
{
    proof {
        lemma_fields_view0(fs@);
    }
    let ghost fv = fields_view(fs@, 0);
    if i >= fs.len() {
        let r: Vec<Vec<u8>> = Vec::new();
        proof {
            assert(seq_views(r@) =~= path_seq(fields_entries(fv, i as int)));
        }
        r
    } else {
        let sub = fs[i].node.list_paths();
        let joined = join_all(fs[i].name.as_slice(), &sub);
        let mut rest = paths_fields(fs, i + 1);
        let ghost jraw = joined@;
        let ghost rraw = rest@;
        let mut r = joined;
        r.append(&mut rest);
        proof {
            let es = entries(fv[i as int].node);
            let whole = fields_entries(fv, i as int);
            assert(whole == prefix_entries(fv[i as int].name, es) + fields_entries(
                fv,
                i as int + 1,
            ));
            assert(seq_views(sub@) == leaf_paths(fv[i as int].node));
            assert(seq_views(jraw).len() == jraw.len());
            assert(seq_views(sub@).len() == sub@.len());
            assert(leaf_paths(fv[i as int].node).len() == es.len());
            assert(jraw.len() == es.len());
            assert(seq_views(rraw).len() == rraw.len());
            assert(seq_views(rraw) == path_seq(fields_entries(fv, i as int + 1)));
            assert(rraw.len() == fields_entries(fv, i as int + 1).len());
            assert forall|k: int| 0 <= k < seq_views(r@).len() implies #[trigger] seq_views(r@)[k]
                == path_seq(whole)[k] by {
                assert(seq_views(r@)[k] == r@[k]@);
                assert(path_seq(whole)[k] == whole[k].0);
                if k < jraw.len() {
                    assert(r@[k] == jraw[k]);
                    assert(seq_views(jraw)[k] == jraw[k]@);
                    assert(seq_views(jraw)[k] == join_path(fv[i as int].name, seq_views(sub@)[k]));
                    assert(seq_views(sub@)[k] == path_seq(es)[k]);
                    assert(path_seq(es)[k] == es[k].0);
                    assert(whole[k] == prefix_entries(fv[i as int].name, es)[k]);
                    assert(prefix_entries(fv[i as int].name, es)[k] == (join_path(
                        fv[i as int].name,
                        es[k].0,
                    ), es[k].1));
                } else {
                    assert(r@[k] == rraw[k - jraw.len()]);
                    assert(seq_views(rraw)[k - jraw.len()] == rraw[k - jraw.len()]@);
                    assert(seq_views(rraw)[k - jraw.len()] == path_seq(
                        fields_entries(fv, i as int + 1),
                    )[k - jraw.len()]);
                    assert(whole[k] == fields_entries(fv, i as int + 1)[k - jraw.len()]);
                }
            }
            assert(seq_views(r@) =~= path_seq(whole));
        }
        r
    }
}

/// The leaf paths contributed by the elements of `items` from `i` on.
fn paths_items(items: &Vec<Node>, i: usize) -> (r: Vec<Vec<u8>>)
    requires
        i <= items@.len(),
    ensures
        seq_views(r@) == path_seq(items_entries(items_view(items@, 0), i as int)),
    decreases items@, items@.len() - i,
{
    proof {
        lemma_items_view0(items@);
    }
    let ghost iv = items_view(items@, 0);
    if i >= items.len() {
        let r: Vec<Vec<u8>> = Vec::new();
        proof {
            assert(seq_views(r@) =~= path_seq(items_entries(iv, i as int)));
        }
        r
    } else {
        let sub = items[i].list_paths();
        let name = render_index(i);
        let joined = join_all(name.as_slice(), &sub);
        let mut rest = paths_items(items, i + 1);
        let ghost jraw = joined@;
        let ghost rraw = rest@;
        let mut r = joined;
        r.append(&mut rest);
        proof {
            let es = entries(iv[i as int]);
            let whole = items_entries(iv, i as int);
            assert(whole == prefix_entries(dec_digits(i as nat), es) + items_entries(
                iv,
                i as int + 1,
            ));
            assert(seq_views(sub@) == leaf_paths(iv[i as int]));
            assert(seq_views(jraw).len() == jraw.len());
            assert(seq_views(sub@).len() == sub@.len());
            assert(leaf_paths(iv[i as int]).len() == es.len());
            assert(jraw.len() == es.len());
            assert(seq_views(rraw).len() == rraw.len());
            assert(seq_views(rraw) == path_seq(items_entries(iv, i as int + 1)));
            assert(rraw.len() == items_entries(iv, i as int + 1).len());
            assert forall|k: int| 0 <= k < seq_views(r@).len() implies #[trigger] seq_views(r@)[k]
                == path_seq(whole)[k] by {
                assert(seq_views(r@)[k] == r@[k]@);
                assert(path_seq(whole)[k] == whole[k].0);
                if k < jraw.len() {
                    assert(r@[k] == jraw[k]);
                    assert(seq_views(jraw)[k] == jraw[k]@);
                    assert(seq_views(jraw)[k] == join_path(dec_digits(i as nat), seq_views(
                        sub@,
                    )[k]));
                    assert(seq_views(sub@)[k] == path_seq(es)[k]);
                    assert(path_seq(es)[k] == es[k].0);
                    assert(whole[k] == prefix_entries(dec_digits(i as nat), es)[k]);
                    assert(prefix_entries(dec_digits(i as nat), es)[k] == (join_path(
                        dec_digits(i as nat),
                        es[k].0,
                    ), es[k].1));
                } else {
                    assert(r@[k] == rraw[k - jraw.len()]);
                    assert(seq_views(rraw)[k - jraw.len()] == rraw[k - jraw.len()]@);
                    assert(seq_views(rraw)[k - jraw.len()] == path_seq(
                        items_entries(iv, i as int + 1),
                    )[k - jraw.len()]);
                    assert(whole[k] == items_entries(iv, i as int + 1)[k - jraw.len()]);
                }
            }
            assert(seq_views(r@) =~= path_seq(whole));
        }
        r
    }
}

impl Clone for Node {
    /// A deep copy with the same abstract value.
    fn clone(&self) -> (r: Self)
        ensures
            r@ == self@,
    {
        clone_node(self)
    }
}

} // verus!
