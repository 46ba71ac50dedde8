//! Fixed-capacity buffers with a tracked initialized prefix.
use vstd::prelude::*;

verus! {

/// A memory region of fixed capacity, of which a prefix is known to hold
/// valid data. The initialized length never exceeds the capacity and only
/// grows.
pub struct BoundedBuf {
    pub(crate) data: Vec<u8>,
    pub(crate) init: usize,
}

impl BoundedBuf {
    /// Total capacity of the region.
    pub closed spec fn capacity(&self) -> nat {
        self.data@.len()
    }

    /// Number of bytes known to hold valid data.
    pub closed spec fn init_len(&self) -> nat {
        self.init as nat
    }

    /// The whole region, initialized or not.
    pub closed spec fn region(&self) -> Seq<u8> {
        self.data@
    }

    /// The bytes known to hold valid data.
    pub open spec fn initialized(&self) -> Seq<u8> {
        self.region().take(self.init_len() as int)
    }

    #[verifier::type_invariant]
    spec fn inv(&self) -> bool {
        self.init <= self.data@.len()
    }

    /// An empty buffer with room for `capacity` bytes.
    pub fn with_capacity(capacity: usize) -> (r: BoundedBuf)
        ensures
            r.capacity() == capacity,
            r.init_len() == 0,
            r.region() == Seq::new(capacity as nat, |i: int| 0u8),
    {
        let mut data: Vec<u8> = Vec::new();
        let mut i: usize = 0;
        while i < capacity
            invariant
                i <= capacity,
                data@.len() == i,
                forall|j: int| 0 <= j < i ==> data@[j] == 0u8,
            decreases capacity - i,
        {
            data.push(0);
            i = i + 1;
        }
        assert(data@ =~= Seq::new(capacity as nat, |i: int| 0u8));
        BoundedBuf { data, init: 0 }
    }

    /// A buffer whose whole region is the given bytes, all of them initialized.
    pub fn from_vec(data: Vec<u8>) -> (r: BoundedBuf)
        ensures
            r.region() == data@,
            r.capacity() == data@.len(),
            r.init_len() == data@.len(),
    {
        let init = data.len();
        BoundedBuf { data, init }
    }

    /// Total capacity of the region.
    pub fn bytes_total(&self) -> (r: usize)
        ensures
            r == self.capacity(),
    {
        self.data.len()
    }

    /// Number of initialized bytes.
    pub fn bytes_init(&self) -> (r: usize)
        ensures
            r == self.init_len(),
            r <= self.capacity(),
    {
        proof {
            use_type_invariant(self);
        }
        self.init
    }

    /// A copy of the initialized bytes.
    pub fn to_vec(&self) -> (r: Vec<u8>)
        ensures
            r@ == self.initialized(),
    {
        proof {
            use_type_invariant(self);
        }
        let mut out: Vec<u8> = Vec::new();
        let mut i: usize = 0;
        while i < self.init
            invariant
                i <= self.init <= self.data@.len(),
                out@ == self.data@.take(i as int),
            decreases self.init - i,
        {
            out.push(self.data[i]);
            i = i + 1;
            assert(out@ =~= self.data@.take(i as int));
        }
        out
    }

    /// Gives up the whole region, initialized or not.
    pub fn into_region(self) -> (r: Vec<u8>)
        ensures
            r@ == self.region(),
    {
        self.data
    }

    /// Records that the kernel wrote `n` bytes from the start of the region.
    /// The initialized length becomes the larger of `n` and its old value.
    pub(crate) fn set_init(&mut self, n: usize)
        requires
            n <= old(self).capacity(),
        ensures
            final(self).region() == old(self).region(),
            final(self).capacity() == old(self).capacity(),
            final(self).init_len() == if n > old(self).init_len() { n as nat } else { old(self).init_len() },
    {
        proof {
            use_type_invariant(&*self);
        }
        if n > self.init {
            self.init = n;
        }
    }
}

} // verus!
