//! The hash index from a name to a position, kept in an `fnv::FnvHashMap`.

use vstd::prelude::*;

verus! {

/// `fnv::FnvHasher`, the hasher of the index: a value that is carried
/// along and never looked into.
#[verifier::external_type_specification]
#[verifier::external_body]
pub struct ExFnvHasher(fnv::FnvHasher);

/// `core::hash::BuildHasherDefault`, which makes the hashers of the index:
/// a value that is carried along and never looked into.
#[verifier::external_type_specification]
#[verifier::external_body]
#[verifier::reject_recursive_types(H)]
pub struct ExBuildHasherDefault<H>(core::hash::BuildHasherDefault<H>);

/// What the index holds: the position under each name.
pub uninterp spec fn name_positions(index: fnv::FnvHashMap<String, usize>) -> Map<Seq<char>, usize>;

/// `FnvHashMap::default`: a map that holds nothing.
#[verifier::external_body]
pub(crate) fn index_new() -> (index: fnv::FnvHashMap<String, usize>)
    ensures
        name_positions(index).dom() == Set::<Seq<char>>::empty(),
{
    fnv::FnvHashMap::default()
}

/// `HashMap::get` on an `FnvHashMap`: the position kept under the name whose
/// text is that of `name`, if the map keeps one.
#[verifier::external_body]
pub(crate) fn index_get(index: &fnv::FnvHashMap<String, usize>, name: &str) -> (position: Option<
    usize,
>)
    ensures
        position == if name_positions(*index).dom().contains(name@) {
            Some(name_positions(*index)[name@])
        } else {
            None
        },
{
    index.get(name).copied()
}

/// `HashMap::insert` on an `FnvHashMap`: afterwards the map keeps `position`
/// under the name, and under every other name what it kept before.
#[verifier::external_body]
pub(crate) fn index_insert(
    index: &mut fnv::FnvHashMap<String, usize>,
    name: String,
    position: usize,
)
    ensures
        name_positions(*final(index)) == name_positions(*old(index)).insert(name@, position),
{
    index.insert(name, position);
}

} // verus!
