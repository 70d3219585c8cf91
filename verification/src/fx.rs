//! Hash sets of board coordinates and of shapes, as `rustc_hash` provides
//! them.
//!
//! Nothing here is proved: each contract states what the hash set of the
//! standard library does when it hashes with `FxHasher`.

use core::hash::BuildHasherDefault;
use rustc_hash::FxHashSet;
use rustc_hash::FxHasher;
use vstd::prelude::*;

verus! {

/// `rustc_hash::FxHasher`, of which nothing is known here but its name.
#[verifier::external_type_specification]
#[verifier::external_body]
pub struct ExFxHasher(FxHasher);

/// `core::hash::BuildHasherDefault`, of which nothing is known here but its
/// name.
#[verifier::external_type_specification]
#[verifier::external_body]
#[verifier::reject_recursive_types(H)]
pub struct ExBuildHasherDefault<H>(BuildHasherDefault<H>);

/// The coordinates that a set holds.
pub uninterp spec fn cells(s: FxHashSet<(usize, usize)>) -> Set<(usize, usize)>;

/// `FxHashSet::default`: a set that holds nothing.
#[verifier::external_body]
pub(crate) fn cell_set_new() -> (s: FxHashSet<(usize, usize)>)
    ensures
        cells(s) == Set::<(usize, usize)>::empty(),
{
    FxHashSet::default()
}

/// `HashSet::insert`: the set holds `cell` afterwards, besides what it held;
/// the result says whether `cell` is new to it.
#[verifier::external_body]
pub(crate) fn cell_set_insert(s: &mut FxHashSet<(usize, usize)>, cell: (usize, usize)) -> (fresh:
    bool)
    ensures
        cells(*final(s)) == cells(*old(s)).insert(cell),
        fresh == !cells(*old(s)).contains(cell),
{
    s.insert(cell)
}

/// `HashSet::contains`: whether the set holds `cell`.
#[verifier::external_body]
pub(crate) fn cell_set_contains(s: &FxHashSet<(usize, usize)>, cell: (usize, usize)) -> (found:
    bool)
    ensures
        found == cells(*s).contains(cell),
{
    s.contains(&cell)
}

/// `HashSet::len`: the number of coordinates in the set.
#[verifier::external_body]
pub(crate) fn cell_set_len(s: &FxHashSet<(usize, usize)>) -> (n: usize)
    ensures
        n == cells(*s).len(),
{
    s.len()
}

/// `HashSet::iter`: every coordinate of the set once, in an order that is
/// not specified.
#[verifier::external_body]
pub(crate) fn cell_set_to_vec(s: &FxHashSet<(usize, usize)>) -> (v: Vec<(usize, usize)>)
    ensures
        v@.no_duplicates(),
        forall|cell: (usize, usize)| v@.contains(cell) <==> cells(*s).contains(cell),
{
    s.iter().copied().collect()
}

/// The shapes that a set holds, each as the list of its coordinates.
pub uninterp spec fn shapes(s: FxHashSet<Vec<(usize, usize)>>) -> Set<Seq<(usize, usize)>>;

/// `FxHashSet::default`: a set that holds nothing.
#[verifier::external_body]
pub(crate) fn shape_set_new() -> (s: FxHashSet<Vec<(usize, usize)>>)
    ensures
        shapes(s) == Set::<Seq<(usize, usize)>>::empty(),
{
    FxHashSet::default()
}

/// `HashSet::insert`: the set holds `shape` afterwards, besides what it
/// held; the result says whether `shape` is new to it. Two vectors are one
/// shape to the set when they hold the same coordinates in the same order.
#[verifier::external_body]
pub(crate) fn shape_set_insert(s: &mut FxHashSet<Vec<(usize, usize)>>, shape: Vec<(usize, usize)>) -> (fresh:
    bool)
    ensures
        shapes(*final(s)) == shapes(*old(s)).insert(shape@),
        fresh == !shapes(*old(s)).contains(shape@),
{
    s.insert(shape)
}

/// `HashSet::drain`: the set is left empty, and what it held is handed out,
/// every shape once, in an order that is not specified.
#[verifier::external_body]
pub(crate) fn shape_set_drain(s: &mut FxHashSet<Vec<(usize, usize)>>) -> (v: Vec<
    Vec<(usize, usize)>,
>)
    ensures
        shapes(*final(s)) == Set::<Seq<(usize, usize)>>::empty(),
        forall|i: int, j: int| 0 <= i < j < v@.len() ==> v@[i]@ != v@[j]@,
        forall|shape: Seq<(usize, usize)>|
            shapes(*old(s)).contains(shape) <==> exists|i: int|
                0 <= i < v@.len() && (#[trigger] v@[i])@ == shape,
{
    s.drain().collect()
}

} // verus!
