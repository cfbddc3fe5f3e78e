//! Identities: the opaque byte strings that name callers.

use crate::table::TableKey;
use vstd::prelude::*;

verus! {

/// The value that identifies a caller across calls: an opaque byte string.
///
/// Identities are ordered first by length and then byte by byte, which is the
/// order in which tables keyed by identity are walked.
#[derive(Debug, PartialEq, Eq, Hash)]
pub struct Identity {
    pub bytes: Vec<u8>,
}

impl View for Identity {
    type V = Seq<u8>;

    open spec fn view(&self) -> Seq<u8> {
        self.bytes@
    }
}

impl DeepView for Identity {
    type V = Seq<u8>;

    open spec fn deep_view(&self) -> Seq<u8> {
        self.bytes@
    }
}

/// The identity of a caller who has not signed in.
pub open spec fn anonymous() -> Seq<u8> {
    seq![4u8]
}

impl Identity {
    /// The identity of a caller who has not signed in.
    pub fn anonymous() -> (r: Identity)
        ensures
            r@ == anonymous(),
    {
        let mut bytes: Vec<u8> = Vec::new();
        bytes.push(4u8);
        assert(bytes@ =~= anonymous());
        Identity { bytes }
    }
}

/// `a` and `b` have the same length, and `a` holds the smaller byte at the
/// first place where they differ.
pub open spec fn bytes_before(a: Seq<u8>, b: Seq<u8>) -> bool {
    a.len() == b.len() && exists|i: int| differ_first_at(a, b, i) && a[i] < b[i]
}

/// `i` is the first place at which `a` and `b` hold different bytes.
pub open spec fn differ_first_at(a: Seq<u8>, b: Seq<u8>, i: int) -> bool {
    &&& 0 <= i < a.len()
    &&& i < b.len()
    &&& a[i] != b[i]
    &&& forall|j: int| 0 <= j < i ==> a[j] == b[j]
}

/// The strict order on identities: shorter first, then bytewise.
pub open spec fn identity_before(a: Seq<u8>, b: Seq<u8>) -> bool {
    a.len() < b.len() || bytes_before(a, b)
}

/// Two different byte strings of one length differ first at some place.
proof fn lemma_first_difference(a: Seq<u8>, b: Seq<u8>, n: int)
    requires
        a.len() == b.len(),
        a != b,
        0 <= n <= a.len(),
        forall|j: int| 0 <= j < n ==> a[j] == b[j],
    ensures
        exists|i: int| differ_first_at(a, b, i),
    decreases a.len() - n,
{
    if n == a.len() {
        assert(a =~= b);
    } else if a[n] != b[n] {
        assert(differ_first_at(a, b, n));
    } else {
        lemma_first_difference(a, b, n + 1);
    }
}

/// No identity comes before itself.
pub proof fn lemma_identity_before_irreflexive(a: Seq<u8>)
    ensures
        !identity_before(a, a),
{
}

/// The order on identities is transitive.
pub proof fn lemma_identity_before_transitive(a: Seq<u8>, b: Seq<u8>, c: Seq<u8>)
    requires
        identity_before(a, b),
        identity_before(b, c),
    ensures
        identity_before(a, c),
{
    if a.len() == b.len() && b.len() == c.len() {
        let i = choose|i: int| differ_first_at(a, b, i) && a[i] < b[i];
        let j = choose|j: int| differ_first_at(b, c, j) && b[j] < c[j];
        let k = if i <= j { i } else { j };
        assert(differ_first_at(a, c, k) && a[k] < c[k]);
    }
}

/// Of two different identities one comes before the other.
pub proof fn lemma_identity_before_total(a: Seq<u8>, b: Seq<u8>)
    ensures
        a == b || identity_before(a, b) || identity_before(b, a),
{
    if a.len() == b.len() && a != b {
        lemma_first_difference(a, b, 0);
        let i = choose|i: int| differ_first_at(a, b, i);
        if a[i] < b[i] {
        } else {
            assert(differ_first_at(b, a, i) && b[i] < a[i]);
        }
    }
}

impl Clone for Identity {
    fn clone(&self) -> (r: Self)
        ensures
            r@ == self@,
    {
        Identity { bytes: self.bytes.clone() }
    }
}

impl Identity {
    /// The place at which `self` and `other`, of one length, first differ.
    fn first_difference(&self, other: &Identity) -> (r: Option<usize>)
        requires
            self@.len() == other@.len(),
        ensures
            match r {
                Some(i) => differ_first_at(self@, other@, i as int),
                None => self@ == other@,
            },
    {
        let mut i: usize = 0;
        while i < self.bytes.len()
            invariant
                self@.len() == other@.len(),
                i <= self@.len(),
                forall|j: int| 0 <= j < i ==> self@[j] == other@[j],
            decreases self@.len() - i,
        {
            if self.bytes[i] != other.bytes[i] {
                return Some(i);
            }
            i += 1;
        }
        assert(self@ =~= other@);
        None
    }

    /// Whether two identities are the same byte string.
    pub fn same(&self, other: &Identity) -> (r: bool)
        ensures
            r == (self@ == other@),
    {
        if self.bytes.len() != other.bytes.len() {
            return false;
        }
        self.first_difference(other).is_none()
    }

    /// Whether `self` comes before `other` in the order of identities.
    pub fn precedes(&self, other: &Identity) -> (r: bool)
        ensures
            r == identity_before(self@, other@),
    {
        if self.bytes.len() != other.bytes.len() {
            return self.bytes.len() < other.bytes.len();
        }
        match self.first_difference(other) {
            Some(i) => {
                let r = self.bytes[i] < other.bytes[i];
                proof {
                    if !r && bytes_before(self@, other@) {
                        let k = choose|k: int| differ_first_at(self@, other@, k) && self@[k] < other@[k];
                        assert(k == i);
                    }
                }
                r
            },
            None => false,
        }
    }
}

/// The identity that a text stands for, if it is the text of an identity.
pub uninterp spec fn identity_of_text(text: Seq<char>) -> Option<Seq<u8>>;

/// `Principal::from_text` of the crate `candid`: the identity whose textual
/// form `text` is, or nothing where `text` is not the textual form of an
/// identity. The contract names the bytes of the identity and claims no more
/// than that they depend on `text` alone.
#[verifier::external_body]
pub(crate) fn parse_identity(text: &str) -> (r: Option<Identity>)
    ensures
        match r {
            Some(identity) => identity_of_text(text@) == Some(identity@),
            None => identity_of_text(text@) is None,
        },
{
    match candid::Principal::from_text(text) {
        Ok(principal) => Some(Identity { bytes: principal.as_slice().to_vec() }),
        Err(_) => None,
    }
}

impl TableKey for Identity {
    open spec fn before(a: Seq<u8>, b: Seq<u8>) -> bool {
        identity_before(a, b)
    }

    proof fn lemma_before_irreflexive(a: Seq<u8>) {
        lemma_identity_before_irreflexive(a);
    }

    proof fn lemma_before_transitive(a: Seq<u8>, b: Seq<u8>, c: Seq<u8>) {
        lemma_identity_before_transitive(a, b, c);
    }

    proof fn lemma_before_total(a: Seq<u8>, b: Seq<u8>) {
        lemma_identity_before_total(a, b);
    }

    fn same_key(&self, other: &Identity) -> (r: bool) {
        self.same(other)
    }

    fn sorts_before(&self, other: &Identity) -> (r: bool) {
        self.precedes(other)
    }

}

} // verus!
