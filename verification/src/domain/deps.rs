//! Inline-first containers from outside crates, and what the library relies on
//! of them. Everything here that is marked as an external body is taken on
//! trust; each comment names the call and says what is claimed of it.
use crate::domain::arena::JobId;
use bytes::Bytes;
use smallvec::SmallVec;
use vstd::prelude::*;

verus! {

/// Dependency list with four ids stored inline before spilling to the heap.
///
/// A `smallvec::SmallVec`, opaque to proofs: only `ids_of` says what one holds.
#[verifier::external_body]
#[derive(Debug)]
pub struct Deps {
    ids: SmallVec<[JobId; 4]>,
}

/// `bytes::Bytes`, opaque to proofs: only `bytes_of` says what one holds.
#[verifier::external_type_specification]
#[verifier::external_body]
pub struct ExBytes(Bytes);

/// The ids a dependency list holds, in order.
pub uninterp spec fn ids_of(deps: Deps) -> Seq<JobId>;

/// The bytes a payload holds, in order.
pub uninterp spec fn bytes_of(payload: Bytes) -> Seq<u8>;

/// `SmallVec::new`: a list that holds nothing.
#[verifier::external_body]
fn smallvec_new() -> (deps: Deps)
    ensures
        ids_of(deps) == Seq::<JobId>::empty(),
{
    Deps { ids: SmallVec::new() }
}

/// `SmallVec::len`: how many ids the list holds.
#[verifier::external_body]
fn smallvec_len(deps: &Deps) -> (count: usize)
    ensures
        count == ids_of(*deps).len(),
{
    deps.ids.len()
}

/// Indexing a `SmallVec`: the id at position `i`, for a position in range.
#[verifier::external_body]
fn smallvec_index(deps: &Deps, i: usize) -> (id: JobId)
    requires
        i < ids_of(*deps).len(),
    ensures
        id == ids_of(*deps)[i as int],
{
    deps.ids[i]
}

/// `SmallVec::push`: the id goes behind those already held. As with `Vec`,
/// running out of memory is not part of the claim.
#[verifier::external_body]
fn smallvec_push(deps: &mut Deps, id: JobId)
    ensures
        ids_of(*final(deps)) == ids_of(*old(deps)).push(id),
{
    deps.ids.push(id);
}

/// `SmallVec::clear`: afterwards the list holds nothing.
#[verifier::external_body]
fn smallvec_clear(deps: &mut Deps)
    ensures
        ids_of(*final(deps)) == Seq::<JobId>::empty(),
{
    deps.ids.clear();
}

/// `SmallVec::clone`: a list of the same ids in the same order. `JobId` is
/// `Copy`, so a cloned id is the id itself.
#[verifier::external_body]
fn smallvec_clone(deps: &Deps) -> (copy: Deps)
    ensures
        ids_of(copy) == ids_of(*deps),
{
    Deps { ids: deps.ids.clone() }
}

/// `Bytes::new`: a payload of no bytes.
#[verifier::external_body]
pub(crate) fn bytes_new() -> (payload: Bytes)
    ensures
        bytes_of(payload) == Seq::<u8>::empty(),
{
    Bytes::new()
}

/// `Bytes::from` a `Vec<u8>`: a payload of the same bytes in the same order.
#[verifier::external_body]
pub(crate) fn bytes_from_vec(bytes: Vec<u8>) -> (payload: Bytes)
    ensures
        bytes_of(payload) == bytes@,
{
    Bytes::from(bytes)
}

/// `Bytes::as_ref`: a view of the payload's bytes.
#[verifier::external_body]
pub(crate) fn bytes_as_slice(payload: &Bytes) -> (bytes: &[u8])
    ensures
        bytes@ == bytes_of(*payload),
{
    payload.as_ref()
}

/// `Bytes::clone`: a handle to the same bytes.
pub assume_specification[ <Bytes as Clone>::clone ](payload: &Bytes) -> (copy: Bytes)
    ensures
        bytes_of(copy) == bytes_of(*payload),
;

impl View for Deps {
    type V = Seq<JobId>;

    open spec fn view(&self) -> Seq<JobId> {
        ids_of(*self)
    }
}

impl Deps {
    /// An empty list. Allocates nothing; the first four ids live inline.
    #[must_use]
    pub fn new() -> (deps: Self)
        ensures
            deps@ == Seq::<JobId>::empty(),
    {
        smallvec_new()
    }

    /// Number of ids held.
    #[must_use]
    pub fn len(&self) -> (count: usize)
        ensures
            count == self@.len(),
    {
        smallvec_len(self)
    }

    /// True when no id is held.
    #[must_use]
    pub fn is_empty(&self) -> (empty: bool)
        ensures
            empty == (self@.len() == 0),
    {
        smallvec_len(self) == 0
    }

    /// The id at position `i`, or `None` past the end.
    #[must_use]
    pub fn get(&self, i: usize) -> (id: Option<JobId>)
        ensures
            id == (if i < self@.len() {
                Some(self@[i as int])
            } else {
                None
            }),
    {
        if i < smallvec_len(self) {
            Some(smallvec_index(self, i))
        } else {
            None
        }
    }

    /// The id at position `i`.
    #[must_use]
    pub(crate) fn at(&self, i: usize) -> (id: JobId)
        requires
            i < self@.len(),
        ensures
            id == self@[i as int],
    {
        smallvec_index(self, i)
    }

    /// Appends one id.
    pub fn push(&mut self, id: JobId)
        ensures
            final(self)@ == old(self)@.push(id),
    {
        smallvec_push(self, id);
    }

    /// Appends every id of `ids`, in order.
    pub fn extend_from_slice(&mut self, ids: &[JobId])
        ensures
            final(self)@ == old(self)@ + ids@,
    {
        let mut i: usize = 0;
        while i < ids.len()
            invariant
                i <= ids@.len(),
                self@ == old(self)@ + ids@.take(i as int),
            decreases ids@.len() - i,
        {
            smallvec_push(self, ids[i]);
            assert(ids@.take(i + 1) =~= ids@.take(i as int).push(ids@[i as int]));
            i += 1;
        }
        assert(ids@.take(ids@.len() as int) =~= ids@);
    }

    /// Forgets every id.
    pub fn clear(&mut self)
        ensures
            final(self)@ == Seq::<JobId>::empty(),
    {
        smallvec_clear(self);
    }
}

impl Clone for Deps {
    fn clone(&self) -> (copy: Self)
        ensures
            copy@ == self@,
    {
        smallvec_clone(self)
    }
}

impl Default for Deps {
    fn default() -> (deps: Self)
        ensures
            deps@ == Seq::<JobId>::empty(),
    {
        Deps::new()
    }
}

} // verus!
