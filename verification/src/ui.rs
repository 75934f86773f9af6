//! View values: immutable, value-comparable descriptions of UI fragments.
//!
//! A `Ui` value is a whole declarative subtree. The arena stores, per node,
//! only the node-local attributes (`NodeData`); the children of the value
//! become child nodes. Two nodes describe the same UI instance for
//! reconciliation exactly when their node-local attributes are equal by
//! value; child lists are reconciled positionally and recursively.
//!
//! A label leaf carries its text and em size as plain values, so any
//! measurement of it stays a pure, repeatable function of the value;
//! real text shaping belongs to the host renderer.

use vstd::prelude::*;

use crate::geom::{dim_ok, size_ok, Axis, Rgba, Size, MAX_DIM, MAX_NODES};

verus! {

/// A declarative description of a UI subtree.
pub enum Ui {
    /// A row or column: children are arranged along `axis`, with `spacing`
    /// inserted between consecutive children only.
    Flex { axis: Axis, spacing: i64, content: Vec<Ui> },
    /// A wrapper adding fixed insets around its single child.
    Padding { start: i64, end: i64, top: i64, bottom: i64, inner: Box<Ui> },
    /// A wrapper painting a filled rectangle behind its single child.
    Background { color: Rgba, inner: Box<Ui> },
    /// A wrapper that claims pointer events falling inside its bounds,
    /// reporting `tag` to the host.
    Clickable { tag: u64, inner: Box<Ui> },
    /// A text leaf: its content, em size and color, compared by value.
    Label { text: Vec<u8>, em: i64, color: Rgba },
    /// A leaf with an explicit elastic range: it reports `min`, `ideal` or
    /// `max` according to the constraint, and obeys a fixed extent.
    Spacer { min: Size, ideal: Size, max: Size },
}

/// The node-local attributes of a view value, as stored in the arena.
pub enum NodeData {
    Flex { axis: Axis, spacing: i64 },
    Padding { start: i64, end: i64, top: i64, bottom: i64 },
    Background { color: Rgba },
    Clickable { tag: u64 },
    Label { text: Vec<u8>, em: i64, color: Rgba },
    Spacer { min: Size, ideal: Size, max: Size },
}

/// The children of a view value, in order. The order is significant: it is
/// the key of the positional diff.
pub open spec fn spec_kids(v: Ui) -> Seq<Ui> {
    match v {
        Ui::Flex { content, .. } => content@,
        Ui::Padding { inner, .. } => seq![*inner],
        Ui::Background { inner, .. } => seq![*inner],
        Ui::Clickable { inner, .. } => seq![*inner],
        Ui::Label { .. } => Seq::empty(),
        Ui::Spacer { .. } => Seq::empty(),
    }
}

/// Whether stored node-local attributes are the ones of the given value.
pub open spec fn data_matches(d: NodeData, v: Ui) -> bool {
    match v {
        Ui::Flex { axis, spacing, .. } => d matches NodeData::Flex { axis: a2, spacing: s2 }
            && a2 == axis && s2 == spacing,
        Ui::Padding { start, end, top, bottom, .. } => d matches NodeData::Padding {
            start: s2,
            end: e2,
            top: t2,
            bottom: b2,
        } && s2 == start && e2 == end && t2 == top && b2 == bottom,
        Ui::Background { color, .. } => d matches NodeData::Background { color: c2 } && c2
            == color,
        Ui::Clickable { tag, .. } => d matches NodeData::Clickable { tag: t2 } && t2 == tag,
        Ui::Label { text, em, color } => d matches NodeData::Label {
            text: t2,
            em: e2,
            color: c2,
        } && t2@ == text@ && e2 == em && c2 == color,
        Ui::Spacer { min, ideal, max } => d matches NodeData::Spacer {
            min: m2,
            ideal: i2,
            max: x2,
        } && m2 == min && i2 == ideal && x2 == max,
    }
}

/// Value equality of node-local attributes. Byte text is compared by
/// content.
pub open spec fn data_eqv(a: NodeData, b: NodeData) -> bool {
    match (a, b) {
        (
            NodeData::Flex { axis: a1, spacing: s1 },
            NodeData::Flex { axis: a2, spacing: s2 },
        ) => a1 == a2 && s1 == s2,
        (
            NodeData::Padding { start: s1, end: e1, top: t1, bottom: b1 },
            NodeData::Padding { start: s2, end: e2, top: t2, bottom: b2 },
        ) => s1 == s2 && e1 == e2 && t1 == t2 && b1 == b2,
        (
            NodeData::Background { color: c1 },
            NodeData::Background { color: c2 },
        ) => c1 == c2,
        (NodeData::Clickable { tag: t1 }, NodeData::Clickable { tag: t2 }) => t1 == t2,
        (
            NodeData::Label { text: t1, em: e1, color: c1 },
            NodeData::Label { text: t2, em: e2, color: c2 },
        ) => t1@ == t2@ && e1 == e2 && c1 == c2,
        (
            NodeData::Spacer { min: m1, ideal: i1, max: x1 },
            NodeData::Spacer { min: m2, ideal: i2, max: x2 },
        ) => m1 == m2 && i1 == i2 && x1 == x2,
        _ => false,
    }
}

/// Attributes matching the same view value are equal by value.
pub proof fn lemma_data_matches_eqv(a: NodeData, b: NodeData, v: Ui)
    requires
        data_matches(a, v),
        data_matches(b, v),
    ensures
        data_eqv(a, b),
{
}

/// Attributes equal by value match the same view values.
pub proof fn lemma_data_eqv_matches(a: NodeData, b: NodeData, v: Ui)
    requires
        data_eqv(a, b),
        data_matches(a, v),
    ensures
        data_matches(b, v),
{
}

/// Compare two byte strings by content.
pub fn bytes_eq(a: &Vec<u8>, b: &Vec<u8>) -> (r: bool)
    ensures
        r == (a@ == b@),
{
    if a.len() != b.len() {
        proof {
            assert(a@.len() != b@.len());
        }
        return false;
    }
    let n = a.len();
    let mut i: usize = 0;
    while i < n
        invariant
            n == a@.len(),
            n == b@.len(),
            i <= n,
            forall|j: int| 0 <= j < i ==> a@[j] == b@[j],
        decreases n - i,
    {
        if a[i] != b[i] {
            proof {
                assert(a@[i as int] != b@[i as int]);
            }
            return false;
        }
        i = i + 1;
    }
    proof {
        assert(a@ =~= b@);
    }
    true
}

/// Executable value equality on node-local attributes.
pub fn data_eq(a: &NodeData, b: &NodeData) -> (r: bool)
    ensures
        r == data_eqv(*a, *b),
{
    match (a, b) {
        (
            NodeData::Flex { axis: a1, spacing: s1 },
            NodeData::Flex { axis: a2, spacing: s2 },
        ) => *a1 == *a2 && *s1 == *s2,
        (
            NodeData::Padding { start: s1, end: e1, top: t1, bottom: b1 },
            NodeData::Padding { start: s2, end: e2, top: t2, bottom: b2 },
        ) => *s1 == *s2 && *e1 == *e2 && *t1 == *t2 && *b1 == *b2,
        (
            NodeData::Background { color: c1 },
            NodeData::Background { color: c2 },
        ) => *c1 == *c2,
        (NodeData::Clickable { tag: t1 }, NodeData::Clickable { tag: t2 }) => *t1 == *t2,
        (
            NodeData::Label { text: t1, em: e1, color: c1 },
            NodeData::Label { text: t2, em: e2, color: c2 },
        ) => bytes_eq(t1, t2) && *e1 == *e2 && *c1 == *c2,
        (
            NodeData::Spacer { min: m1, ideal: i1, max: x1 },
            NodeData::Spacer { min: m2, ideal: i2, max: x2 },
        ) => *m1 == *m2 && *i1 == *i2 && *x1 == *x2,
        _ => false,
    }
}

/// Split a view value into its node-local attributes and its child values.
pub fn split(v: Ui) -> (r: (NodeData, Vec<Ui>))
    ensures
        data_matches(r.0, v),
        r.1@ == spec_kids(v),
{
    match v {
        Ui::Flex { axis, spacing, content } => (NodeData::Flex { axis, spacing }, content),
        Ui::Padding { start, end, top, bottom, inner } => {
            let mut kids: Vec<Ui> = Vec::new();
            kids.push(*inner);
            proof {
                assert(kids@ =~= spec_kids(Ui::Padding { start, end, top, bottom, inner }));
            }
            (NodeData::Padding { start, end, top, bottom }, kids)
        },
        Ui::Background { color, inner } => {
            let mut kids: Vec<Ui> = Vec::new();
            kids.push(*inner);
            proof {
                assert(kids@ =~= spec_kids(Ui::Background { color, inner }));
            }
            (NodeData::Background { color }, kids)
        },
        Ui::Clickable { tag, inner } => {
            let mut kids: Vec<Ui> = Vec::new();
            kids.push(*inner);
            proof {
                assert(kids@ =~= spec_kids(Ui::Clickable { tag, inner }));
            }
            (NodeData::Clickable { tag }, kids)
        },
        Ui::Label { text, em, color } => (NodeData::Label { text, em, color }, Vec::new()),
        Ui::Spacer { min, ideal, max } => (NodeData::Spacer { min, ideal, max }, Vec::new()),
    }
}

/// Validity of node-local attributes: every stored length is a valid
/// dimension and a label's em is positive (it is a divisor in the text
/// metric).
pub open spec fn data_ok(d: NodeData) -> bool {
    match d {
        NodeData::Flex { spacing, .. } => dim_ok(spacing as int),
        NodeData::Padding { start, end, top, bottom } => dim_ok(start as int) && dim_ok(
            end as int,
        ) && dim_ok(top as int) && dim_ok(bottom as int),
        NodeData::Background { .. } => true,
        NodeData::Clickable { .. } => true,
        NodeData::Label { em, .. } => 1 <= em <= MAX_DIM,
        NodeData::Spacer { min, ideal, max } => size_ok(min) && size_ok(ideal) && size_ok(max),
    }
}


/// The node-local validity of a view value, without recursion.
pub open spec fn data_ok_of_ui(v: Ui) -> bool {
    match v {
        Ui::Flex { spacing, .. } => dim_ok(spacing as int),
        Ui::Padding { start, end, top, bottom, .. } => dim_ok(start as int) && dim_ok(end as int)
            && dim_ok(top as int) && dim_ok(bottom as int),
        Ui::Background { .. } => true,
        Ui::Clickable { .. } => true,
        Ui::Label { em, .. } => 1 <= em <= MAX_DIM,
        Ui::Spacer { min, ideal, max } => size_ok(min) && size_ok(ideal) && size_ok(max),
    }
}


/// Validity of a whole view value: every stored length is a valid
/// dimension, every label em is positive, and no child list is longer
/// than the arena can hold.
pub open spec fn ui_ok(v: Ui) -> bool
    decreases v,
{
    data_ok_of_ui(v) && spec_kids(v).len() <= MAX_NODES && (forall|i: int|
        0 <= i < spec_kids(v).len() ==> ui_ok(#[trigger] spec_kids(v)[i]))
}

/// Executable check for `ui_ok`, so unverified hosts can validate a
/// description before handing it to the engine.
#[verifier::loop_isolation(false)]
pub fn ui_check(v: &Ui) -> (r: bool)
    ensures
        r == ui_ok(*v),
    decreases *v,
{
    match v {
        Ui::Flex { spacing, content, .. } => {
            proof {
                assert(spec_kids(*v) == content@);
            }
            if !(0 <= *spacing && *spacing <= MAX_DIM) {
                return false;
            }
            if content.len() > MAX_NODES {
                return false;
            }
            let n = content.len();
            let mut i: usize = 0;
            while i < n
                invariant
                    i <= n,
                    forall|j: int| 0 <= j < i ==> ui_ok(#[trigger] content@[j]),
                decreases n - i,
            {
                proof {
                    assert(spec_kids(*v) == content@);
                }
                if !ui_check(&content[i]) {
                    proof {
                        assert(spec_kids(*v)[i as int] == content@[i as int]);
                    }
                    return false;
                }
                i = i + 1;
            }
            proof {
                assert forall|j: int|
                    0 <= j < spec_kids(*v).len() implies ui_ok(#[trigger] spec_kids(*v)[j]) by {
                    assert(ui_ok(content@[j]));
                }
                assert(ui_ok(*v));
            }
            true
        },
        Ui::Padding { start, end, top, bottom, inner } => {
            proof {
                assert(spec_kids(*v) == seq![**inner]);
            }
            if !(0 <= *start && *start <= MAX_DIM && 0 <= *end && *end <= MAX_DIM && 0 <= *top
                && *top <= MAX_DIM && 0 <= *bottom && *bottom <= MAX_DIM) {
                return false;
            }
            let r = ui_check(inner);
            proof {
                assert(spec_kids(*v)[0] == **inner);
                if r {
                    assert forall|j: int|
                        0 <= j < spec_kids(*v).len() implies ui_ok(
                        #[trigger] spec_kids(*v)[j],
                    ) by {
                        assert(spec_kids(*v)[j] == **inner);
                    }
                }
            }
            r
        },
        Ui::Background { inner, .. } => {
            let r = ui_check(inner);
            proof {
                assert(spec_kids(*v)[0] == **inner);
                if r {
                    assert forall|j: int|
                        0 <= j < spec_kids(*v).len() implies ui_ok(
                        #[trigger] spec_kids(*v)[j],
                    ) by {
                        assert(spec_kids(*v)[j] == **inner);
                    }
                }
            }
            r
        },
        Ui::Clickable { inner, .. } => {
            let r = ui_check(inner);
            proof {
                assert(spec_kids(*v)[0] == **inner);
                if r {
                    assert forall|j: int|
                        0 <= j < spec_kids(*v).len() implies ui_ok(
                        #[trigger] spec_kids(*v)[j],
                    ) by {
                        assert(spec_kids(*v)[j] == **inner);
                    }
                }
            }
            r
        },
        Ui::Label { em, .. } => 1 <= *em && *em <= MAX_DIM,
        Ui::Spacer { min, ideal, max } => {
            0 <= min.w && min.w <= MAX_DIM && 0 <= min.h && min.h <= MAX_DIM && 0 <= ideal.w
                && ideal.w <= MAX_DIM && 0 <= ideal.h && ideal.h <= MAX_DIM && 0 <= max.w && max.w
                <= MAX_DIM && 0 <= max.h && max.h <= MAX_DIM
        },
    }
}

/// A row: children arranged horizontally, no spacing.
pub fn row(content: Vec<Ui>) -> (v: Ui)
    ensures
        v == (Ui::Flex { axis: Axis::Horizontal, spacing: 0, content }),
{
    Ui::Flex { axis: Axis::Horizontal, spacing: 0, content }
}

/// A column: children arranged vertically, no spacing.
pub fn col(content: Vec<Ui>) -> (v: Ui)
    ensures
        v == (Ui::Flex { axis: Axis::Vertical, spacing: 0, content }),
{
    Ui::Flex { axis: Axis::Vertical, spacing: 0, content }
}

/// A text leaf in opaque black at an em of twelve units.
pub fn label(text: Vec<u8>) -> (v: Ui)
    ensures
        v == (Ui::Label { text, em: 1200, color: Rgba { r: 0, g: 0, b: 0, a: 255 } }),
{
    Ui::Label { text, em: 1200, color: Rgba { r: 0, g: 0, b: 0, a: 255 } }
}

impl Ui {
    /// On a flex container, replace the spacing inserted between
    /// consecutive children; other values are returned unchanged.
    pub fn spacing(self, spacing: i64) -> (v: Ui)
        ensures
            v == match self {
                Ui::Flex { axis, content, .. } => Ui::Flex { axis, spacing, content },
                _ => self,
            },
    {
        match self {
            Ui::Flex { axis, content, .. } => Ui::Flex { axis, spacing, content },
            other => other,
        }
    }

    /// On a label, replace the em size; other values are returned
    /// unchanged.
    pub fn size(self, em: i64) -> (v: Ui)
        ensures
            v == match self {
                Ui::Label { text, color, .. } => Ui::Label { text, em, color },
                _ => self,
            },
    {
        match self {
            Ui::Label { text, color, .. } => Ui::Label { text, em, color },
            other => other,
        }
    }

    /// On a label, replace the color; other values are returned unchanged.
    pub fn color(self, color: Rgba) -> (v: Ui)
        ensures
            v == match self {
                Ui::Label { text, em, .. } => Ui::Label { text, em, color },
                _ => self,
            },
    {
        match self {
            Ui::Label { text, em, .. } => Ui::Label { text, em, color },
            other => other,
        }
    }

    /// Wrap this value with fixed insets on each edge.
    pub fn padding(self, start: i64, end: i64, top: i64, bottom: i64) -> (v: Ui)
        ensures
            v == (Ui::Padding { start, end, top, bottom, inner: Box::new(self) }),
    {
        Ui::Padding { start, end, top, bottom, inner: Box::new(self) }
    }

    /// Wrap this value with the same inset on every edge.
    pub fn padding_all(self, p: i64) -> (v: Ui)
        ensures
            v == (Ui::Padding { start: p, end: p, top: p, bottom: p, inner: Box::new(self) }),
    {
        self.padding(p, p, p, p)
    }

    /// Wrap this value with horizontal and vertical insets.
    pub fn padding_axial(self, horizontal: i64, vertical: i64) -> (v: Ui)
        ensures
            v == (Ui::Padding {
                start: horizontal,
                end: horizontal,
                top: vertical,
                bottom: vertical,
                inner: Box::new(self),
            }),
    {
        self.padding(horizontal, horizontal, vertical, vertical)
    }

    /// Wrap this value with a horizontal inset on both sides.
    pub fn padding_horizontal(self, horizontal: i64) -> (v: Ui)
        ensures
            v == (Ui::Padding {
                start: horizontal,
                end: horizontal,
                top: 0,
                bottom: 0,
                inner: Box::new(self),
            }),
    {
        self.padding(horizontal, horizontal, 0, 0)
    }

    /// Wrap this value with a vertical inset above and below.
    pub fn padding_vertical(self, vertical: i64) -> (v: Ui)
        ensures
            v == (Ui::Padding {
                start: 0,
                end: 0,
                top: vertical,
                bottom: vertical,
                inner: Box::new(self),
            }),
    {
        self.padding(0, 0, vertical, vertical)
    }

    /// Wrap this value with an inset at its start edge only.
    pub fn padding_start(self, start: i64) -> (v: Ui)
        ensures
            v == (Ui::Padding { start, end: 0, top: 0, bottom: 0, inner: Box::new(self) }),
    {
        self.padding(start, 0, 0, 0)
    }

    /// Wrap this value with an inset at its end edge only.
    pub fn padding_end(self, end: i64) -> (v: Ui)
        ensures
            v == (Ui::Padding { start: 0, end, top: 0, bottom: 0, inner: Box::new(self) }),
    {
        self.padding(0, end, 0, 0)
    }

    /// Wrap this value with an inset at its top edge only.
    pub fn padding_top(self, top: i64) -> (v: Ui)
        ensures
            v == (Ui::Padding { start: 0, end: 0, top, bottom: 0, inner: Box::new(self) }),
    {
        self.padding(0, 0, top, 0)
    }

    /// Wrap this value with an inset at its bottom edge only.
    pub fn padding_bottom(self, bottom: i64) -> (v: Ui)
        ensures
            v == (Ui::Padding { start: 0, end: 0, top: 0, bottom, inner: Box::new(self) }),
    {
        self.padding(0, 0, 0, bottom)
    }

    /// Wrap this value with a filled background rectangle.
    pub fn background(self, color: Rgba) -> (v: Ui)
        ensures
            v == (Ui::Background { color, inner: Box::new(self) }),
    {
        Ui::Background { color, inner: Box::new(self) }
    }

    /// Wrap this value so pointer events inside its bounds are claimed and
    /// reported under the given tag.
    pub fn clickable(self, tag: u64) -> (v: Ui)
        ensures
            v == (Ui::Clickable { tag, inner: Box::new(self) }),
    {
        Ui::Clickable { tag, inner: Box::new(self) }
    }
}

/// A user-defined component: a value that builds a view description.
/// Implementations must be pure: equal components must build equal
/// descriptions, and repeated builds of the same component must agree.
pub trait Component {
    /// Produce the view description for this component.
    fn build(&self) -> Ui;
}

} // verus!
