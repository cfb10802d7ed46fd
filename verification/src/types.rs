//! Core identifiers and the hierarchical operator address.

use vstd::prelude::*;

verus! {

/// Identifier of a dataflow operator.
pub type OpId = u64;

/// Identifier of a worker thread of the dataflow engine.
pub type WorkerId = u64;

/// The fatal conditions a collection run can end with. Any of them aborts
/// the whole run: there is no partial-result mode.
#[derive(Clone, Copy, Debug, PartialEq, Eq, Structural)]
pub enum Error {
    /// Protocol violation: the first row of a feed was not a progress
    /// marker.
    FirstRowNotProgress,
    /// Protocol violation: an identifier column held a value outside the
    /// unsigned 64-bit range.
    InvalidId,
    /// Protocol violation: malformed operator address text.
    InvalidAddress,
    /// Consistency violation: a parent operator or parent counter needed by
    /// the exclusive-time conversion is missing from the directory.
    IncompleteDirectory,
}

/// An operator's nesting path: an ordered, non-empty sequence of small
/// non-negative integers. The parent of a non-root address is the address
/// with its last element removed.
#[derive(Debug)]
pub struct Address(pub Vec<u64>);

impl View for Address {
    type V = Seq<u64>;

    open spec fn view(&self) -> Seq<u64> {
        self.0@
    }
}

/// Metadata of one operator: a human-readable name and its nesting address.
#[derive(Debug)]
pub struct OpInfo {
    pub name: String,
    pub address: Address,
}

/// Mathematical model of an [`OpInfo`].
pub ghost struct OpInfoView {
    pub name: Seq<char>,
    pub address: Seq<u64>,
}

impl View for OpInfo {
    type V = OpInfoView;

    open spec fn view(&self) -> OpInfoView {
        OpInfoView { name: self.name@, address: self.address@ }
    }
}

impl Address {
    /// Copies the first `k` path elements into a fresh address.
    pub fn prefix(&self, k: usize) -> (r: Address)
        requires
            k <= self@.len(),
        ensures
            r@ == self@.take(k as int),
    {
        let mut v: Vec<u64> = Vec::new();
        let mut i: usize = 0;
        while i < k
            invariant
                i <= k <= self@.len(),
                v@ == self@.take(i as int),
            decreases k - i,
        {
            v.push(self.0[i]);
            proof {
                assert(v@ =~= self@.take(i + 1 as int));
            }
            i = i + 1;
        }
        Address(v)
    }

    /// The proper, non-empty prefixes of this address, ordered from closest
    /// (one element shorter) to outermost (a single element).
    pub fn ancestors(&self) -> (r: Vec<Address>)
        ensures
            self@.len() == 0 ==> r@.len() == 0,
            self@.len() > 0 ==> r@.len() == self@.len() - 1,
            forall|i: int|
                0 <= i < r@.len() ==> #[trigger] r@[i]@ == self@.take(self@.len() - 1 - i),
    {
        let mut r: Vec<Address> = Vec::new();
        if self.0.len() == 0 {
            return r;
        }
        let mut k: usize = self.0.len() - 1;
        while k > 0
            invariant
                k < self@.len(),
                r@.len() == self@.len() - 1 - k,
                forall|i: int|
                    0 <= i < r@.len() ==> #[trigger] r@[i]@ == self@.take(self@.len() - 1 - i),
            decreases k,
        {
            r.push(self.prefix(k));
            k = k - 1;
        }
        r
    }

    /// The address with its last element removed, or `None` for a root
    /// (single-element or empty) address.
    pub fn parent(&self) -> (r: Option<Address>)
        ensures
            self@.len() <= 1 ==> r is None,
            self@.len() > 1 ==> (r matches Some(a) && a@ == self@.drop_last()),
    {
        if self.0.len() <= 1 {
            None
        } else {
            let a = self.prefix(self.0.len() - 1);
            proof {
                assert(self@.take(self@.len() - 1) =~= self@.drop_last());
            }
            Some(a)
        }
    }

    /// Compares two addresses element by element.
    pub fn same_as(&self, other: &Address) -> (r: bool)
        ensures
            r == (self@ == other@),
    {
        if self.0.len() != other.0.len() {
            proof {
                assert(self@ != other@);
            }
            return false;
        }
        let n = self.0.len();
        let mut i: usize = 0;
        while i < n
            invariant
                i <= n,
                n == self@.len() == other@.len(),
                forall|j: int| 0 <= j < i ==> self@[j] == other@[j],
            decreases n - i,
        {
            if self.0[i] != other.0[i] {
                proof {
                    assert(self@[i as int] != other@[i as int]);
                }
                return false;
            }
            i = i + 1;
        }
        proof {
            assert(self@ =~= other@);
        }
        true
    }

    /// Copies the address.
    pub fn duplicate(&self) -> (r: Address)
        ensures
            r@ == self@,
    {
        let r = self.prefix(self.0.len());
        proof {
            assert(self@.take(self@.len() as int) =~= self@);
        }
        r
    }
}

impl OpInfo {
    /// Copies the operator metadata.
    pub fn duplicate(&self) -> (r: OpInfo)
        ensures
            r@ == self@,
    {
        OpInfo { name: self.name.clone(), address: self.address.duplicate() }
    }
}

} // verus!
