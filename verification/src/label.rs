use vstd::prelude::*;

verus! {

/// A label type for the boundary and apex elements of spans and cospans.
///
/// `same_label` is the executable equality on labels; its contract ties it to
/// mathematical equality, which is what the specifications of this crate
/// compare labels with.
pub trait Label: Copy + Eq + core::fmt::Debug {
    fn same_label(&self, other: &Self) -> (b: bool)
        ensures
            b == (*self == *other),
    ;
}

impl Label for char {
    fn same_label(&self, other: &Self) -> (b: bool) {
        *self == *other
    }
}

impl Label for bool {
    fn same_label(&self, other: &Self) -> (b: bool) {
        *self == *other
    }
}

impl Label for u8 {
    fn same_label(&self, other: &Self) -> (b: bool) {
        *self == *other
    }
}

impl Label for u16 {
    fn same_label(&self, other: &Self) -> (b: bool) {
        *self == *other
    }
}

impl Label for u32 {
    fn same_label(&self, other: &Self) -> (b: bool) {
        *self == *other
    }
}

impl Label for u64 {
    fn same_label(&self, other: &Self) -> (b: bool) {
        *self == *other
    }
}

impl Label for usize {
    fn same_label(&self, other: &Self) -> (b: bool) {
        *self == *other
    }
}

impl Label for i8 {
    fn same_label(&self, other: &Self) -> (b: bool) {
        *self == *other
    }
}

impl Label for i16 {
    fn same_label(&self, other: &Self) -> (b: bool) {
        *self == *other
    }
}

impl Label for i32 {
    fn same_label(&self, other: &Self) -> (b: bool) {
        *self == *other
    }
}

impl Label for i64 {
    fn same_label(&self, other: &Self) -> (b: bool) {
        *self == *other
    }
}

impl Label for isize {
    fn same_label(&self, other: &Self) -> (b: bool) {
        *self == *other
    }
}

/// The text of a label as its `Debug` form shows it. Nothing is claimed of
/// the text.
#[verifier::external_body]
pub(crate) fn label_text<Lambda: Label>(l: &Lambda) -> String {
    format!("{l:?}")
}

/// The text of a word of labels as the `Debug` form of a slice shows it.
/// Nothing is claimed of the text.
#[verifier::external_body]
pub(crate) fn labels_text<Lambda: Label>(l: &[Lambda]) -> String {
    format!("{l:?}")
}

/// Executable equality of two label sequences.
pub fn labels_equal<L: Label>(l: &[L], r: &[L]) -> (b: bool)
    ensures
        b == (l@ == r@),
{
    if l.len() != r.len() {
        return false;
    }
    let mut i: usize = 0;
    while i < l.len()
        invariant
            l@.len() == r@.len(),
            i <= l@.len(),
            forall|j: int| 0 <= j < i ==> l@[j] == r@[j],
        decreases l@.len() - i,
    {
        if !l[i].same_label(&r[i]) {
            return false;
        }
        i = i + 1;
    }
    assert(l@ =~= r@);
    true
}

} // verus!
