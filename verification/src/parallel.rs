//! The data-parallel steps, run on rayon's worker pool.
//!
//! The functions here hand verified functions of this crate to rayon. What
//! rayon does with them is stated, not proved.

use crate::bigint::LargeInt;
use crate::digits::is_digits;
use crate::grid::{is_scaled_row, scale_digits};
use crate::multiply;
use rayon::iter::{IntoParallelRefIterator, ParallelIterator};
use vstd::prelude::*;

verus! {

/// One partial product per digit of `a`, computed in parallel.
///
/// Calls rayon's `par_iter`, `map` and `collect` on the digits of `a`, with
/// `scale_digits` as the mapped function. The contract claims of rayon that
/// collecting a mapped slice iterator into a `Vec` yields one result per item,
/// in the order of the items; what each result is, is the postcondition of
/// `scale_digits`.
#[verifier::external_body]
pub(crate) fn partial_products(a: &Vec<u8>, b: &Vec<u8>) -> (rows: Vec<Vec<u8>>)
    requires
        is_digits(a@),
        is_digits(b@),
    ensures
        rows@.len() == a@.len(),
        forall|i: int| 0 <= i < a@.len() ==> is_scaled_row(#[trigger] rows@[i]@, b@, a@[i]),
{
    a.par_iter().map(|d| scale_digits(b, *d)).collect()
}

/// One way in which a parallel reduction may have combined its items: the items
/// stand at the leaves, in their order, identities may stand among them, and
/// every inner node is one application of the operation.
pub enum Grouping {
    /// The identity, put in where a worker started from nothing.
    Identity,
    /// One item, by the integer it denotes.
    Leaf(int),
    /// Two groups combined, the left one first.
    Join(Box<Grouping>, Box<Grouping>),
}

impl Grouping {
    /// The items at the leaves, left to right.
    pub open spec fn leaves(self) -> Seq<int>
        decreases self,
    {
        match self {
            Grouping::Identity => Seq::empty(),
            Grouping::Leaf(v) => seq![v],
            Grouping::Join(l, r) => l.leaves() + r.leaves(),
        }
    }

    /// What the grouping evaluates to under multiplication with identity one.
    pub open spec fn product(self) -> int
        decreases self,
    {
        match self {
            Grouping::Identity => 1,
            Grouping::Leaf(v) => v,
            Grouping::Join(l, r) => l.product() * r.product(),
        }
    }

    /// However the items were grouped, the result is their product.
    pub proof fn lemma_product(self)
        ensures
            self.product() == seq_product(self.leaves()),
        decreases self,
    {
        match self {
            Grouping::Identity => {},
            Grouping::Leaf(v) => {
                let s = seq![v];
                assert(s.drop_last() =~= Seq::<int>::empty());
                assert(seq_product(s.drop_last()) == 1);
                assert(s.last() == v);
                assert(seq_product(s) == seq_product(s.drop_last()) * s.last());
            },
            Grouping::Join(l, r) => {
                l.lemma_product();
                r.lemma_product();
                lemma_product_concat(l.leaves(), r.leaves());
            },
        }
    }
}

/// The product of the entries; one for no entries.
pub open spec fn seq_product(s: Seq<int>) -> int
    decreases s.len(),
{
    if s.len() == 0 {
        1
    } else {
        seq_product(s.drop_last()) * s.last()
    }
}

/// The product of a concatenation is the product of the products.
pub proof fn lemma_product_concat(a: Seq<int>, b: Seq<int>)
    ensures
        seq_product(a + b) == seq_product(a) * seq_product(b),
    decreases b.len(),
{
    if b.len() == 0 {
        assert(a + b =~= a);
        assert(seq_product(a) * 1 == seq_product(a));
    } else {
        assert((a + b).drop_last() =~= a + b.drop_last());
        lemma_product_concat(a, b.drop_last());
        let x = seq_product(a);
        let y = seq_product(b.drop_last());
        let z = b.last();
        assert((x * y) * z == x * (y * z)) by (nonlinear_arith);
    }
}

/// The integers that the items denote.
pub open spec fn views(items: Seq<LargeInt>) -> Seq<int> {
    Seq::new(items.len(), |i: int| items[i]@)
}

/// `value` is what some grouping of `items` evaluates to.
pub open spec fn is_grouped_product(value: int, items: Seq<int>) -> bool {
    exists|g: Grouping| #[trigger] g.leaves() == items && g.product() == value
}

/// Every grouping of the items evaluates to their product.
pub proof fn lemma_grouped_product(value: int, items: Seq<int>)
    requires
        is_grouped_product(value, items),
    ensures
        value == seq_product(items),
{
    let g = choose|g: Grouping| #[trigger] g.leaves() == items && g.product() == value;
    g.lemma_product();
}

/// The items combined by multiplication, in parallel.
///
/// Calls rayon's `par_iter`, `cloned` and `reduce` on the items, with `LargeInt::one`
/// as the identity and `multiply` as the operation. The contract claims of rayon what
/// its documentation of `reduce` says: the result comes from applying the operation to
/// the items in their order, grouped in some way that is not specified, with the
/// identity put in wherever that suits the workers. What one application gives is
/// the postcondition of `multiply`.
#[verifier::external_body]
pub(crate) fn parallel_product(items: &Vec<LargeInt>) -> (r: LargeInt)
    requires
        forall|i: int| 0 <= i < items@.len() ==> (#[trigger] items@[i]).wf(),
    ensures
        r.wf(),
        is_grouped_product(r@, views(items@)),
{
    items.par_iter().cloned().reduce(|| LargeInt::one(), |x, y| multiply(&x, &y))
}

} // verus!
