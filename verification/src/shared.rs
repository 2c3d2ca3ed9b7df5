use std::sync::Arc;
use vstd::prelude::*;

use crate::chunk_data::ChunkDataInner;

verus! {

/// `Arc::clone`: one more handle to the value that `value` points to; the
/// value itself is not copied.
#[verifier::external_body]
pub(crate) fn arc_clone<T>(value: &Arc<T>) -> (shared: Arc<T>)
    ensures
        shared == *value,
{
    Arc::clone(value)
}

/// `Arc::make_mut`: access to the chunk for writing. A chunk that has no
/// other holder is handed out as it is; one that has is copied first, so
/// that the other holders keep what they have. Either way the chunk that is
/// handed out has the cells and the palette that `data` pointed to, and
/// `data` points to whatever the chunk handed out is changed to.
#[verifier::external_body]
pub(crate) fn arc_make_mut(data: &mut Arc<ChunkDataInner>) -> (inner: &mut ChunkDataInner)
    ensures
        inner.cells() == old(data).cells(),
        inner.palette() == old(data).palette(),
        old(data).wf() ==> inner.wf(),
        **final(data) == *final(inner),
{
    Arc::make_mut(data)
}

} // verus!
