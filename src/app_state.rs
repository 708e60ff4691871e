use vstd::prelude::*;

verus! {

/// What the request handlers share: the pool they serve.
pub struct AppState<M> {
    pub mempool: M,
}

} // verus!
