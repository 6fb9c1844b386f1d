use vstd::prelude::*;

use crate::cipher::{
    bounded, lemma_no_fixed_point, lemma_pairing_symmetry, lemma_partner_bounded, matching,
    no_self_pairs, spec_is_paired, spec_partner, total_over, CipherError, Pair, SymmetricCipher,
    SymmetricEncoder,
};

verus! {

/// The reflector stage: a pairing set under the total-matching policy.
/// Every index must be paired, so reflection never passes a value
/// through; encoding is its own inverse, which is what makes the whole
/// machine reciprocal.
#[derive(Clone, Debug)]
pub struct Reflector {
    pub encoder: SymmetricEncoder<usize>,
}

impl Reflector {
    /// The wired pairs.
    pub open spec fn pairs(&self) -> Seq<Pair<usize>> {
        self.encoder.pairs@
    }

    /// What reflection does to a paired value.
    pub open spec fn spec_encode(&self, v: int) -> int {
        spec_partner(self.pairs(), v)
    }

    /// A reflector fit for a machine of size `n`: a matching that stays
    /// below `n` and pairs every index.
    pub open spec fn wf(&self, n: nat) -> bool {
        &&& matching(self.pairs())
        &&& bounded(self.pairs(), n)
        &&& total_over(self.pairs(), n)
    }

    /// An independent copy of the reflector: the same pairs.
    pub(crate) fn copied(&self) -> (r: Self)
        ensures
            r.pairs() == self.pairs(),
    {
        Reflector { encoder: self.encoder.copied() }
    }

    /// Every index reflected to itself — degenerate (a true reflector may
    /// not self-pair), kept for probing identity behaviour.
    pub fn mirror(size: usize) -> (r: Self)
        ensures
            r.wf(size as nat),
            forall|v: int| 0 <= v < size ==> #[trigger] r.spec_encode(v) == v,
    {
        Reflector { encoder: SymmetricEncoder::mirror(size) }
    }

    /// Index `v` reflected to `size - 1 - v`; for even sizes a total
    /// matching with no fixed point.
    pub fn flipped(size: usize) -> (r: Self)
        ensures
            r.wf(size as nat),
            forall|v: int| 0 <= v < size ==> #[trigger] r.spec_encode(v) == size - 1 - v,
            size % 2 == 0 ==> forall|v: int| 0 <= v < size ==> #[trigger] r.spec_encode(v) != v,
    {
        let r = Reflector { encoder: SymmetricEncoder::flipped(size) };
        proof {
            if size % 2 == 0 {
                assert forall|v: int| 0 <= v < size implies #[trigger] r.spec_encode(v) != v by {
                    assert(r.spec_encode(v) == size - 1 - v);
                }
            }
        }
        r
    }

    /// A uniformly random reflector: for even sizes a total matching in
    /// which no index reflects to itself.
    pub fn random(size: usize) -> (r: Self)
        ensures
            matching(r.pairs()),
            bounded(r.pairs(), size as nat),
            size % 2 == 0 ==> r.wf(size as nat),
            size % 2 == 0 ==> forall|v: int| 0 <= v < size ==> #[trigger] r.spec_encode(v) != v,
    {
        let r = Reflector { encoder: SymmetricEncoder::random(size) };
        proof {
            if size % 2 == 0 {
                assert forall|v: int| 0 <= v < size implies #[trigger] r.spec_encode(v) != v by {
                    lemma_no_fixed_point(r.pairs(), v);
                }
            }
        }
        r
    }

    /// Reflects a paired value to its partner; `NotFound` on an unpaired
    /// value — unreachable through a well-built reflector, but enforced
    /// defensively.
    pub fn encode(&self, value: usize) -> (r: Result<usize, CipherError>)
        ensures
            r is Ok <==> spec_is_paired(self.pairs(), value as int),
            r is Err ==> r == Err::<usize, CipherError>(CipherError::NotFound),
            matching(self.pairs()) && spec_is_paired(self.pairs(), value as int) ==> r == Ok::<
                usize,
                CipherError,
            >(spec_partner(self.pairs(), value as int) as usize),
    {
        self.encoder.encode(value)
    }
}

impl SymmetricCipher for Reflector {
    /// The pairing-set invariant: each value in at most one pair.
    open spec fn sym_accepts(&self) -> bool {
        matching(self.pairs())
    }

    open spec fn sym_at(&self, input: usize) -> Result<usize, CipherError> {
        if spec_is_paired(self.pairs(), input as int) {
            Ok(spec_partner(self.pairs(), input as int) as usize)
        } else {
            Err(CipherError::NotFound)
        }
    }

    fn encode(&self, input: usize) -> (r: Result<usize, CipherError>) {
        Reflector::encode(self, input)
    }
}

/// Reflection is an involution over `0..n`: a well-formed reflector sends
/// every index below `n` to a partner below `n`, and back to itself when
/// applied twice.
pub proof fn lemma_reflector_involution(r: Reflector, n: nat, v: int)
    requires
        r.wf(n),
        0 <= v < n,
    ensures
        spec_is_paired(r.pairs(), v),
        0 <= r.spec_encode(v) < n,
        r.spec_encode(r.spec_encode(v)) == v,
{
    lemma_partner_bounded(r.pairs(), n, v);
    lemma_pairing_symmetry(r.pairs(), v);
}

/// Reflector totality with no fixed point: a well-formed reflector built
/// over an even size with no self-pair moves every index.
pub proof fn lemma_reflector_total_no_fixed_point(r: Reflector, n: nat, v: int)
    requires
        r.wf(n),
        no_self_pairs(r.pairs()),
        0 <= v < n,
    ensures
        spec_is_paired(r.pairs(), v),
        r.spec_encode(v) != v,
{
    lemma_no_fixed_point(r.pairs(), v);
}

} // verus!
