//! Finding the delimiters of a request target: the `?` that opens the query,
//! the `#` that opens the fragment, and the `/` between segments.

use super::grammar::{lemma_scan_to_is, path_end, query_end, scan_to, HASH, QUESTION, SLASH};
use smallvec::SmallVec;
use vstd::prelude::*;

verus! {

/// A list of positions in the `smallvec` crate's vector, which holds up to
/// eight of them without allocating.
#[verifier::external_body]
pub struct Positions {
    inner: SmallVec<[usize; 8]>,
}

/// What a list of positions holds, in order.
pub uninterp spec fn positions_of(list: Positions) -> Seq<usize>;

/// The empty sequence of positions.
pub open spec fn no_positions() -> Seq<usize> {
    Seq::empty()
}

/// An empty list, by `SmallVec::new`.
#[verifier::external_body]
pub(crate) fn positions_new() -> (list: Positions)
    ensures
        positions_of(list) == no_positions(),
{
    Positions { inner: SmallVec::new() }
}

/// Appends a position, by `SmallVec::push`.
#[verifier::external_body]
pub(crate) fn positions_push(list: &mut Positions, position: usize)
    ensures
        positions_of(*final(list)) == positions_of(*old(list)).push(position),
{
    list.inner.push(position)
}

/// The positions as a slice, by `SmallVec::as_slice`.
#[verifier::external_body]
pub(crate) fn positions_slice(list: &Positions) -> (r: &[usize])
    ensures
        r@ == positions_of(*list),
{
    list.inner.as_slice()
}

/// `min(len, delim)`, where no delimiter means no limit.
pub open spec fn limit_of(len: int, delim: Option<usize>) -> int {
    match delim {
        Some(d) => if d < len {
            d as int
        } else {
            len
        },
        None => len,
    }
}

/// The index of the `?` that opens the query, if there is one before any
/// `#`, and the index of the first `#`, if there is one.
pub fn find_border(url: &[u8]) -> (r: (Option<usize>, Option<usize>))
    ensures
        r.0 matches Some(q) ==> q == path_end(url@) && q < url@.len() && url@[q as int] == 0x3F,
        r.0 is None ==> path_end(url@) == url@.len() || url@[path_end(url@)] == 0x23,
        r.1 matches Some(h) ==> h == query_end(url@, 0) && h < url@.len(),
        r.1 is None ==> query_end(url@, 0) == url@.len(),
{
    find_border_fallback(url, 0)
}

/// The same search, begun at `start`: nothing before `start` is looked at.
pub fn find_border_fallback(url: &[u8], start: usize) -> (r: (Option<usize>, Option<usize>))
    requires
        start <= url@.len(),
    ensures
        r.0 matches Some(q) ==> q == scan_to(url@, start as int, 0x3F, 0x23) && q < url@.len()
            && url@[q as int] == 0x3F,
        r.0 is None ==> scan_to(url@, start as int, 0x3F, 0x23) == url@.len() || url@[scan_to(
            url@,
            start as int,
            0x3F,
            0x23,
        )] == 0x23,
        r.1 matches Some(h) ==> h == query_end(url@, start as int) && h < url@.len(),
        r.1 is None ==> query_end(url@, start as int) == url@.len(),
{
    let mut query_loc: Option<usize> = None;
    let mut i: usize = start;
    while i < url.len()
        invariant
            start <= i <= url@.len(),
            forall|j: int| start <= j < i ==> #[trigger] url@[j] != 0x23,
            query_loc matches Some(q) ==> start <= q < i && url@[q as int] == 0x3F && forall|
                j: int,
            | start <= j < q ==> #[trigger] url@[j] != 0x3F,
            query_loc is None ==> forall|j: int| start <= j < i ==> #[trigger] url@[j] != 0x3F,
        decreases url@.len() - i,
    {
        if query_loc.is_none() && url[i] == QUESTION {
            query_loc = Some(i);
        } else if url[i] == HASH {
            proof {
                lemma_scan_to_is(url@, start as int, 0x23, 0x23, i as int);
                match query_loc {
                    Some(q) => {
                        lemma_scan_to_is(url@, start as int, 0x3F, 0x23, q as int);
                    },
                    None => {
                        lemma_scan_to_is(url@, start as int, 0x3F, 0x23, i as int);
                    },
                }
            }
            return (query_loc, Some(i));
        }
        i = i + 1;
    }
    proof {
        lemma_scan_to_is(url@, start as int, 0x23, 0x23, url@.len() as int);
        match query_loc {
            Some(q) => {
                lemma_scan_to_is(url@, start as int, 0x3F, 0x23, q as int);
            },
            None => {
                lemma_scan_to_is(url@, start as int, 0x3F, 0x23, url@.len() as int);
            },
        }
    }
    (query_loc, None)
}

/// The indices of every `/` before the delimiter, in rising order.
pub fn find_slashes(url: &[u8], delim: Option<usize>) -> (v: Positions)
    ensures
        slashes_of(url@, positions_of(v), limit_of(url@.len() as int, delim)),
{
    let limit: usize = match delim {
        Some(d) => if d < url.len() {
            d
        } else {
            url.len()
        },
        None => url.len(),
    };
    find_slashes_fallback(url, 0, limit, Positions::new())
}

/// `v` holds exactly the indices below `limit` at which `url` has a `/`, in
/// rising order.
pub open spec fn slashes_of(url: Seq<u8>, v: Seq<usize>, limit: int) -> bool {
    &&& forall|k: int| 0 <= k < v.len() ==> #[trigger] v[k] < limit && url[v[k] as int] == 0x2F
    &&& forall|j: int, k: int| 0 <= j < k < v.len() ==> v[j] < v[k]
    &&& forall|i: int|
        0 <= i < limit && #[trigger] url[i] == 0x2F ==> exists|k: int|
            0 <= k < v.len() && v[k] == i
}

/// Appends to `vec` the indices from `start` up to the delimiter at which
/// `url` has a `/`.
pub fn find_slashes_fallback(url: &[u8], start: usize, delim: usize, vec: Positions) -> (v:
    Positions)
    requires
        start <= delim <= url@.len(),
        slashes_of(url@, positions_of(vec), start as int),
    ensures
        slashes_of(url@, positions_of(v), delim as int),
{
    let mut vec = vec;
    let mut i: usize = start;
    while i < delim
        invariant
            start <= i <= delim <= url@.len(),
            slashes_of(url@, positions_of(vec), i as int),
        decreases delim - i,
    {
        if url[i] == SLASH {
            let ghost before = positions_of(vec);
            positions_push(&mut vec, i);
            proof {
                let after = positions_of(vec);
                assert forall|j: int| 0 <= j < i + 1 && #[trigger] url@[j] == 0x2F implies exists|
                    k: int,
                | 0 <= k < after.len() && after[k] == j by {
                    if j < i {
                        let k = choose|k: int| 0 <= k < before.len() && before[k] == j;
                        assert(after[k] == j);
                    } else {
                        assert(after[before.len() as int] == j);
                    }
                }
            }
        }
        i = i + 1;
    }
    vec
}

impl Positions {
    /// An empty list.
    pub fn new() -> (list: Self)
        ensures
            positions_of(list) == no_positions(),
    {
        positions_new()
    }

    /// The positions, in order.
    pub fn as_slice(&self) -> (r: &[usize])
        ensures
            r@ == positions_of(*self),
    {
        positions_slice(self)
    }
}

} // verus!
