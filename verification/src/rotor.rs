use vstd::arithmetic::div_mod::lemma_fundamental_div_mod_converse;
use vstd::prelude::*;

use crate::cipher::{CipherError, DirectedCipher, DirectedEncoder, TableView};

verus! {

/// The mathematical content of a rotor: its wiring table and its
/// rotational offset.
pub struct RotorView {
    pub table: TableView,
    pub position: int,
}

impl RotorView {
    pub open spec fn size(&self) -> int {
        self.table.size()
    }

    /// A usable rotor: a bijective wiring of at least one contact, with
    /// the offset inside the index range.
    pub open spec fn wf(&self) -> bool {
        &&& self.table.wf()
        &&& self.size() > 0
        &&& 0 <= self.position < self.size()
    }

    /// Forward substitution at the current offset:
    /// `fwd[(v + position) mod n]`.
    pub open spec fn enc(&self, v: int) -> int {
        self.table.fwd[(v + self.position) % self.size()] as int
    }

    /// Inverse substitution at the current offset:
    /// `(inv[v] + n - position) mod n`; the `+ n` pre-offset keeps the
    /// subtraction from running below zero.
    pub open spec fn dec(&self, v: int) -> int {
        (self.table.inv[v] + self.size() - self.position) % self.size()
    }

    /// The rotor one step further, wiring untouched.
    pub open spec fn advanced(&self) -> RotorView {
        RotorView {
            table: self.table,
            position: if self.position == self.size() - 1 {
                0
            } else {
                self.position + 1
            },
        }
    }
}

/// For `0 <= a < 2n`, the remainder of `a mod n` is `a` itself or `a - n`.
proof fn lemma_mod_two_ranges(a: int, n: int)
    requires
        0 < n,
        0 <= a < 2 * n,
    ensures
        a % n == if a < n {
            a
        } else {
            a - n
        },
{
    if a < n {
        lemma_fundamental_div_mod_converse(a, n, 0, a);
    } else {
        lemma_fundamental_div_mod_converse(a, n, 1, a - n);
    }
}

/// Rotor round trip at any position: at every offset, decoding undoes
/// encoding and encoding undoes decoding, and both stay inside `0..n`.
pub proof fn lemma_rotor_round_trip(r: RotorView, v: int)
    requires
        r.wf(),
        0 <= v < r.size(),
    ensures
        0 <= r.enc(v) < r.size(),
        r.dec(r.enc(v)) == v,
        0 <= r.dec(v) < r.size(),
        r.enc(r.dec(v)) == v,
{
    let n = r.size();
    let pos = r.position;
    lemma_mod_two_ranges(v + pos, n);
    let x = (v + pos) % n;
    assert(0 <= x < n);
    let e = r.table.fwd[x] as int;
    assert(0 <= e < n && r.table.inv[e] == x);
    lemma_mod_two_ranges(x + n - pos, n);
    assert(r.dec(e) == v);
    let d = r.table.inv[v] as int;
    assert(0 <= d < n && r.table.fwd[d] == v);
    lemma_mod_two_ranges(d + n - pos, n);
    let y = (d + n - pos) % n;
    assert(r.dec(v) == y && 0 <= y < n);
    lemma_mod_two_ranges(y + pos, n);
    assert((y + pos) % n == d);
    assert(r.enc(y) == v);
}

/// One rotor: a directed wiring table plus a rotational offset; encoding
/// and decoding shift by the offset with wraparound.
#[derive(Clone, Debug)]
pub struct Rotor {
    pub values: DirectedEncoder<usize>,
    pub position: usize,
}

impl View for Rotor {
    type V = RotorView;

    open spec fn view(&self) -> RotorView {
        RotorView { table: self.values@, position: self.position as int }
    }
}

impl Rotor {
    /// A rotor over the identity wiring, at offset zero.
    pub fn ascending(size: usize) -> (r: Self)
        requires
            size >= 1,
        ensures
            r@.wf(),
            r@.size() == size,
            r@.position == 0,
            forall|i: int| 0 <= i < size ==> r@.table.fwd[i] == i,
    {
        Self::from(DirectedEncoder::ascending(size))
    }

    /// A rotor over the reversed wiring, at offset zero.
    pub fn descending(size: usize) -> (r: Self)
        requires
            size >= 1,
        ensures
            r@.wf(),
            r@.size() == size,
            r@.position == 0,
            forall|i: int| 0 <= i < size ==> r@.table.fwd[i] == size - 1 - i,
    {
        Self::from(DirectedEncoder::descending(size))
    }

    /// A rotor over a randomly shuffled wiring, at offset zero.
    pub fn random(size: usize) -> (r: Self)
        requires
            size >= 1,
        ensures
            r@.wf(),
            r@.size() == size,
            r@.position == 0,
    {
        Self::from(DirectedEncoder::random(size))
    }

    /// Wraps a wiring table into a rotor at offset zero.
    pub fn from(values: DirectedEncoder<usize>) -> (r: Self)
        ensures
            r@.table == values@,
            r@.position == 0,
            values@.wf() && values@.size() > 0 ==> r@.wf(),
    {
        Rotor { values, position: 0 }
    }

    /// An independent copy of the rotor: same wiring, same offset.
    pub fn copied(&self) -> (r: Self)
        ensures
            r@ == self@,
    {
        Rotor {
            values: DirectedEncoder {
                encoding: copy_indices(&self.values.encoding),
                decoding: copy_indices(&self.values.decoding),
            },
            position: self.position,
        }
    }

    /// The number of contacts.
    pub fn len(&self) -> (r: usize)
        ensures
            r == self@.size(),
    {
        self.values.len()
    }

    /// The same rotor turned to `position mod n`, wiring shared
    /// unchanged.
    pub fn set_position(&self, position: usize) -> (r: Result<Self, CipherError>)
        requires
            self@.size() > 0,
        ensures
            r matches Ok(rot) && rot@.table == self@.table && rot@.position == (position as int)
                % self@.size(),
    {
        let wrapped = self.wrap(position);
        let values = DirectedEncoder {
            encoding: copy_indices(&self.values.encoding),
            decoding: copy_indices(&self.values.decoding),
        };
        Ok(Rotor { values, position: wrapped })
    }

    /// `v` folded into the index range `0..n`.
    fn wrap(&self, v: usize) -> (r: usize)
        requires
            self@.size() > 0,
        ensures
            r == (v as int) % self@.size(),
    {
        v % self.values.len()
    }

    /// Forward substitution of an index through the turned rotor.
    pub fn encode(&self, input: usize) -> (r: Result<usize, CipherError>)
        requires
            self@.wf(),
            input < self@.size(),
        ensures
            r matches Ok(v) && v == self@.enc(input as int),
            0 <= self@.enc(input as int) < self@.size(),
    {
        let n = self.values.len();
        let shifted = if input >= n - self.position {
            input - (n - self.position)
        } else {
            input + self.position
        };
        proof {
            lemma_mod_two_ranges(input + self.position, self@.size());
        }
        self.values.encode(shifted)
    }

    /// Inverse substitution of an index through the turned rotor;
    /// `IndexOutOfRange` at or beyond `n`.
    pub fn decode(&self, input: usize) -> (r: Result<usize, CipherError>)
        requires
            self@.wf(),
        ensures
            (input as int) < self@.size() ==> (r matches Ok(v) && v == self@.dec(input as int) && 0
                <= self@.dec(input as int) < self@.size()),
            (input as int) >= self@.size() ==> r == Err::<usize, CipherError>(
                CipherError::IndexOutOfRange,
            ),
    {
        let n = self.values.len();
        match self.values.decode(input) {
            Ok(d) => {
                let shifted = if d >= self.position {
                    d - self.position
                } else {
                    d + (n - self.position)
                };
                proof {
                    lemma_mod_two_ranges(d + n - self.position, self@.size());
                }
                Ok(shifted)
            },
            Err(e) => Err(e),
        }
    }

    /// Turns the rotor one step, wrapping at `n`; the iteration primitive
    /// the stack cranks once per symbol.
    pub fn next(&mut self)
        requires
            old(self)@.wf(),
        ensures
            final(self)@ == old(self)@.advanced(),
            final(self)@.wf(),
    {
        if self.position >= self.values.len() - 1 {
            self.position = 0;
        } else {
            self.position = self.position + 1;
        }
    }
}

impl DirectedCipher for Rotor {
    /// A usable rotor, addressed inside its index universe.
    open spec fn accepts(&self, input: usize) -> bool {
        self@.wf() && (input as int) < self@.size()
    }

    open spec fn enc_at(&self, input: usize) -> Result<usize, CipherError> {
        Ok(self@.enc(input as int) as usize)
    }

    open spec fn dec_at(&self, input: usize) -> Result<usize, CipherError> {
        Ok(self@.dec(input as int) as usize)
    }

    fn encode(&self, input: usize) -> (r: Result<usize, CipherError>) {
        Rotor::encode(self, input)
    }

    fn decode(&self, input: usize) -> (r: Result<usize, CipherError>) {
        Rotor::decode(self, input)
    }
}

/// An element-for-element copy of an index list.
fn copy_indices(v: &Vec<usize>) -> (r: Vec<usize>)
    ensures
        r@ == v@,
{
    let n = v.len();
    let mut r: Vec<usize> = Vec::new();
    for i in 0..n
        invariant
            n == v@.len(),
            r@ == v@.take(i as int),
    {
        r.push(v[i]);
        proof {
            assert(r@ =~= v@.take(i + 1));
        }
    }
    proof {
        assert(v@.take(n as int) =~= v@);
    }
    r
}

} // verus!
