//! The pending-bytes span: a run of bytes that is either a view into the
//! chunk currently being scanned or an owned copy that outlives it.

use vstd::prelude::*;
use vstd::slice::slice_subrange;
use vstd::slice::slice_to_vec;

verus! {

/// Bytes handed out by the parser: borrowed from the input chunk when they
/// lay contiguously in it, owned when they had to be carried across chunks.
#[derive(Debug, Clone, PartialEq, Eq)]
pub enum Bytes<'a> {
    Borrowed(&'a [u8]),
    Owned(Vec<u8>),
}

impl<'a> View for Bytes<'a> {
    type V = Seq<u8>;

    open spec fn view(&self) -> Seq<u8> {
        match *self {
            Bytes::Borrowed(s) => s@,
            Bytes::Owned(v) => v@,
        }
    }
}

impl<'a> Bytes<'a> {
    pub fn as_slice(&self) -> (r: &[u8])
        ensures
            r@ == self@,
    {
        match self {
            Bytes::Borrowed(s) => s,
            Bytes::Owned(v) => v.as_slice(),
        }
    }

    pub fn is_borrowed(&self) -> (r: bool)
        ensures
            r <==> self is Borrowed,
    {
        match self {
            Bytes::Borrowed(_) => true,
            Bytes::Owned(_) => false,
        }
    }
}

/// Bytes accumulated by a parser while it scans.
///
/// `View { start, len }` names `chunk[start..start + len]` of the chunk being
/// scanned and is only meaningful during one parse call; `Owned` holds a copy
/// that survives from one chunk to the next.  An empty view refers to nothing.
#[derive(Debug, Clone, PartialEq, Eq)]
pub enum Span {
    View { start: usize, len: usize },
    Owned(Vec<u8>),
}

impl Span {
    /// The span lies within `chunk`.
    pub open spec fn fits(&self, chunk: Seq<u8>) -> bool {
        match *self {
            Span::View { start, len } => len == 0 || start + len <= chunk.len(),
            Span::Owned(_) => true,
        }
    }

    /// The span refers to no chunk at all, so it stays valid between calls.
    pub open spec fn is_detached(&self) -> bool {
        match *self {
            Span::View { len, .. } => len == 0,
            Span::Owned(_) => true,
        }
    }

    pub open spec fn len_spec(&self) -> nat {
        match *self {
            Span::View { len, .. } => len as nat,
            Span::Owned(v) => v@.len(),
        }
    }

    /// The bytes that the span stands for, read against `chunk`.
    pub open spec fn bytes_in(&self, chunk: Seq<u8>) -> Seq<u8> {
        match *self {
            Span::View { start, len } => if len == 0 {
                Seq::empty()
            } else {
                chunk.subrange(start as int, start + len)
            },
            Span::Owned(v) => v@,
        }
    }

    /// The bytes of a detached span.
    pub open spec fn detached_bytes(&self) -> Seq<u8> {
        self.bytes_in(Seq::empty())
    }

    /// An empty view.
    pub fn empty() -> (r: Span)
        ensures
            r.is_detached(),
            r.len_spec() == 0,
            forall|chunk: Seq<u8>| #[trigger] r.bytes_in(chunk) == Seq::<u8>::empty(),
    {
        Span::View { start: 0, len: 0 }
    }

    pub fn len(&self) -> (r: usize)
        ensures
            r == self.len_spec(),
    {
        match self {
            Span::View { len, .. } => *len,
            Span::Owned(v) => v.len(),
        }
    }

    /// Appends `chunk[i]`: an empty span becomes a view of that byte, a view
    /// grows in place when the byte directly follows it and is copied out
    /// when it would have to cross a gap, and an owned span stays owned.
    pub fn push_byte(&mut self, chunk: &[u8], i: usize)
        requires
            old(self).fits(chunk@),
            i < chunk@.len(),
        ensures
            final(self).fits(chunk@),
            final(self).bytes_in(chunk@) == old(self).bytes_in(chunk@).push(chunk@[i as int]),
            old(self).len_spec() == 0 ==> *final(self) == (Span::View { start: i, len: 1 }),
            *old(self) matches Span::View { start, len } ==> (len > 0 && start + len == i ==> *final(self) == (
            Span::View { start, len: (len + 1) as usize })),
            *old(self) is Owned && old(self).len_spec() > 0 ==> *final(self) is Owned,
    {
        let b = chunk[i];
        if self.len() == 0 {
            *self = Span::View { start: i, len: 1 };
            proof {
                assert(self.bytes_in(chunk@) =~= old(self).bytes_in(chunk@).push(chunk@[i as int]));
            }
            return;
        }
        match self {
            Span::View { start, len } => {
                if *start + *len == i {
                    *len = *len + 1;
                } else {
                    let mut v = slice_to_vec(slice_subrange(chunk, *start, *start + *len));
                    v.push(b);
                    *self = Span::Owned(v);
                }
            },
            Span::Owned(v) => {
                v.push(b);
            },
        }
        proof {
            assert(self.bytes_in(chunk@) =~= old(self).bytes_in(chunk@).push(chunk@[i as int]));
        }
    }

    /// The `k`-th byte of the span.
    pub fn byte_at(&self, chunk: &[u8], k: usize) -> (r: u8)
        requires
            self.fits(chunk@),
            k < self.len_spec(),
        ensures
            r == self.bytes_in(chunk@)[k as int],
    {
        proof {
            assert(chunk@.len() == chunk.len());
        }
        match self {
            Span::View { start, .. } => chunk[*start + k],
            Span::Owned(v) => v[k],
        }
    }

    /// Copies a view out of `chunk`, so that the span no longer depends on it.
    pub fn detach(&mut self, chunk: &[u8])
        requires
            old(self).fits(chunk@),
        ensures
            final(self).is_detached(),
            final(self).detached_bytes() == old(self).bytes_in(chunk@),
    {
        proof {
            assert(chunk@.len() == chunk.len());
        }
        match self {
            Span::View { start, len } => {
                if *len > 0 {
                    let v = slice_to_vec(slice_subrange(chunk, *start, *start + *len));
                    *self = Span::Owned(v);
                }
            },
            Span::Owned(_) => {},
        }
    }

    /// Hands the bytes out, borrowed from `chunk` where the span is a view.
    pub fn into_bytes<'a>(self, chunk: &'a [u8]) -> (r: Bytes<'a>)
        requires
            self.fits(chunk@),
        ensures
            r@ == self.bytes_in(chunk@),
            self is View && self.len_spec() > 0 ==> r is Borrowed,
    {
        proof {
            assert(chunk@.len() == chunk.len());
        }
        match self {
            Span::View { start, len } => {
                if len == 0 {
                    Bytes::Owned(Vec::new())
                } else {
                    Bytes::Borrowed(slice_subrange(chunk, start, start + len))
                }
            },
            Span::Owned(v) => Bytes::Owned(v),
        }
    }

    /// A copy of the bytes.
    pub fn to_vec(&self, chunk: &[u8]) -> (r: Vec<u8>)
        requires
            self.fits(chunk@),
        ensures
            r@ == self.bytes_in(chunk@),
    {
        proof {
            assert(chunk@.len() == chunk.len());
        }
        match self {
            Span::View { start, len } => {
                if *len == 0 {
                    Vec::new()
                } else {
                    slice_to_vec(slice_subrange(chunk, *start, *start + *len))
                }
            },
            Span::Owned(v) => v.clone(),
        }
    }
}

} // verus!
