use vstd::prelude::*;

use crate::character_set::CharacterSet;
use crate::cipher::{
    bounded, lemma_pairing_symmetry, lemma_partner_bounded, matching, spec_partner, total_over,
    CipherError, Pair,
};
use crate::plugboard::{lemma_plugboard_involution, plug_spec, PlugBoard};
use crate::reflector::Reflector;
use crate::rotor::{Rotor, RotorView};
use crate::rotor_set::{
    advanced_stack, all_wf, lemma_advanced_stack_props, lemma_stack_round_trip, stack_dec,
    stack_enc, uniform, RotorSet,
};

verus! {

/// The mathematical content of a whole machine: the alphabet, the rotor
/// stack, and the two pairing sets.
pub struct MachineView {
    pub alphabet: Seq<char>,
    pub rotors: Seq<RotorView>,
    pub reflector: Seq<Pair<usize>>,
    pub plugboard: Seq<Pair<usize>>,
}

impl MachineView {
    /// The shared index universe: the alphabet's length.
    pub open spec fn size(&self) -> int {
        self.alphabet.len() as int
    }

    /// Every component sized to the alphabet: distinct symbols, usable
    /// uniform rotors, a total reflector matching, a plugboard matching.
    pub open spec fn wf(&self) -> bool {
        &&& self.alphabet.no_duplicates()
        &&& all_wf(self.rotors)
        &&& uniform(self.rotors, self.size())
        &&& matching(self.reflector)
        &&& bounded(self.reflector, self.size() as nat)
        &&& total_over(self.reflector, self.size() as nat)
        &&& matching(self.plugboard)
        &&& bounded(self.plugboard, self.size() as nat)
    }

    /// One index through the whole chain: plugboard, rotors forward,
    /// reflector, rotors backward, plugboard again.
    pub open spec fn process(&self, v: int) -> int {
        plug_spec(
            self.plugboard,
            stack_dec(
                self.rotors,
                spec_partner(self.reflector, stack_enc(self.rotors, plug_spec(self.plugboard, v))),
            ),
        )
    }

    /// The machine after one odometer step of its rotor stack.
    pub open spec fn stepped(&self) -> MachineView {
        MachineView { rotors: advanced_stack(self.rotors), ..*self }
    }

    /// One symbol through the machine at its current state; a symbol
    /// outside the alphabet is left as it is.
    pub open spec fn encode_char(&self, c: char) -> char {
        if self.alphabet.contains(c) {
            self.alphabet[self.process(self.alphabet.index_of(c))]
        } else {
            c
        }
    }
}

/// Machine reciprocity on indices: the composed substitution keeps to
/// `0..n` and is its own inverse, so encoding and decoding are one
/// operation under matching rotor state.
pub proof fn lemma_machine_reciprocity(m: MachineView, v: int)
    requires
        m.wf(),
        0 <= v < m.size(),
    ensures
        0 <= m.process(v) < m.size(),
        m.process(m.process(v)) == v,
{
    let n = m.size();
    let p1 = plug_spec(m.plugboard, v);
    lemma_plugboard_involution(m.plugboard, n as nat, v);
    let e1 = stack_enc(m.rotors, p1);
    lemma_stack_round_trip(m.rotors, n, p1);
    let r1 = spec_partner(m.reflector, e1);
    lemma_partner_bounded(m.reflector, n as nat, e1);
    lemma_pairing_symmetry(m.reflector, e1);
    let d1 = stack_dec(m.rotors, r1);
    lemma_stack_round_trip(m.rotors, n, r1);
    let out = plug_spec(m.plugboard, d1);
    lemma_plugboard_involution(m.plugboard, n as nat, d1);
    // Back through the chain a second time, each stage undoing itself.
    assert(plug_spec(m.plugboard, out) == d1);
    assert(stack_enc(m.rotors, d1) == r1) by {
        lemma_stack_round_trip(m.rotors, n, r1);
    }
    assert(spec_partner(m.reflector, r1) == e1);
    assert(stack_dec(m.rotors, e1) == p1) by {
        lemma_stack_round_trip(m.rotors, n, p1);
    }
    assert(plug_spec(m.plugboard, p1) == v);
}

/// Machine reciprocity on symbols: encoding an encoded symbol at the
/// same rotor state gives the original back, and never leaves the
/// alphabet.
pub proof fn lemma_encode_char_reciprocal(m: MachineView, c: char)
    requires
        m.wf(),
        m.alphabet.contains(c),
    ensures
        m.alphabet.contains(m.encode_char(c)),
        m.encode_char(m.encode_char(c)) == c,
{
    let i = m.alphabet.index_of(c);
    assert(0 <= i < m.size() && m.alphabet[i] == c);
    lemma_machine_reciprocity(m, i);
    let e = m.process(i);
    let c2 = m.alphabet[e];
    assert(m.alphabet.contains(c2));
    let j = m.alphabet.index_of(c2);
    assert(0 <= j < m.size() && m.alphabet[j] == c2);
    assert(j == e);
    assert(m.encode_char(c2) == m.alphabet[m.process(e)]);
    assert(m.process(e) == i);
}

/// Stepping the rotors keeps the machine well-formed and touches nothing
/// but the rotor offsets.
pub proof fn lemma_stepped_wf(m: MachineView)
    requires
        m.wf(),
    ensures
        m.stepped().wf(),
        m.stepped().alphabet == m.alphabet,
        m.stepped().reflector == m.reflector,
        m.stepped().plugboard == m.plugboard,
{
    lemma_advanced_stack_props(m.rotors);
    assert forall|i: int| 0 <= i < m.rotors.len() implies (#[trigger] advanced_stack(
        m.rotors,
    )[i]).size() == m.size() by {
        assert(advanced_stack(m.rotors)[i].table == m.rotors[i].table);
    }
}

/// The machine: one alphabet, one plugboard, one rotor stack and one
/// reflector, all sized to the same `n`, composed into a single
/// reciprocal substitution over symbols.
#[derive(Clone, Debug)]
pub struct Machine {
    pub character_set: CharacterSet,
    pub rotor_set: RotorSet,
    pub reflector: Reflector,
    pub plugboard: PlugBoard,
}

impl View for Machine {
    type V = MachineView;

    open spec fn view(&self) -> MachineView {
        MachineView {
            alphabet: self.character_set@,
            rotors: self.rotor_set@,
            reflector: self.reflector.pairs(),
            plugboard: self.plugboard.pairs(),
        }
    }
}

impl Machine {
    /// A machine over the given alphabet, with no rotors, an empty
    /// plugboard, and the flipped reflector as the default.
    pub fn new(character_set: CharacterSet) -> (r: Self)
        requires
            character_set@.no_duplicates(),
        ensures
            r@.wf(),
            r@.alphabet == character_set@,
            r@.rotors.len() == 0,
            r@.plugboard.len() == 0,
            forall|v: int|
                0 <= v < r@.size() ==> #[trigger] spec_partner(r@.reflector, v) == r@.size() - 1
                    - v,
    {
        let set_len = character_set.len();
        let reflector = Reflector::flipped(set_len);
        proof {
            assert forall|v: int| 0 <= v < set_len implies #[trigger] spec_partner(
                reflector.pairs(),
                v,
            ) == set_len - 1 - v by {
                assert(reflector.spec_encode(v) == set_len - 1 - v);
            }
        }
        Machine {
            character_set,
            rotor_set: RotorSet::new(),
            reflector,
            plugboard: PlugBoard::new(),
        }
    }

    /// The same machine with the reflector exchanged.
    pub fn with_reflector(&self, reflector: Reflector) -> (r: Self)
        requires
            self@.wf(),
            reflector.wf(self@.size() as nat),
        ensures
            r@.alphabet == self@.alphabet,
            r@.rotors == self@.rotors,
            r@.plugboard == self@.plugboard,
            r@.reflector == reflector.pairs(),
            r@.wf(),
    {
        Machine {
            character_set: self.character_set.copied(),
            rotor_set: self.rotor_set.copied(),
            reflector,
            plugboard: self.plugboard.copied(),
        }
    }

    /// The same machine with one more rotor appended to the stack.
    pub fn with_rotor(&self, rotor: Rotor) -> (r: Self)
        requires
            self@.wf(),
            rotor@.wf(),
            rotor@.size() == self@.size(),
        ensures
            r@.alphabet == self@.alphabet,
            r@.rotors == self@.rotors.push(rotor@),
            r@.reflector == self@.reflector,
            r@.plugboard == self@.plugboard,
            r@.wf(),
    {
        let r = Machine {
            character_set: self.character_set.copied(),
            rotor_set: self.rotor_set.with_rotor(rotor),
            reflector: self.reflector.copied(),
            plugboard: self.plugboard.copied(),
        };
        proof {
            let rs = r@.rotors;
            assert(forall|i: int|
                0 <= i < self@.rotors.len() ==> rs[i] == #[trigger] self@.rotors[i]);
            assert forall|i: int| 0 <= i < rs.len() implies (#[trigger] rs[i]).wf() && rs[i].size()
                == r@.size() by {
                if i < rs.len() - 1 {
                    assert(self@.rotors[i].wf());
                }
            }
        }
        r
    }

    /// Turns the rotor stack one odometer step; done once before every
    /// symbol.
    pub fn next(&mut self)
        requires
            old(self)@.wf(),
        ensures
            final(self)@ == old(self)@.stepped(),
            final(self)@.wf(),
    {
        proof {
            lemma_advanced_stack_props(self@.rotors);
            assert forall|i: int| 0 <= i < self@.rotors.len() implies (#[trigger] advanced_stack(
                self@.rotors,
            )[i]).size() == self@.size() by {
                assert(advanced_stack(self@.rotors)[i].table == self@.rotors[i].table);
            }
        }
        self.rotor_set.next();
    }

    /// Turns every rotor back to offset zero, leaving wiring, reflector
    /// and plugboard untouched.
    pub fn reset(&mut self)
        requires
            old(self)@.wf(),
        ensures
            final(self)@.alphabet == old(self)@.alphabet,
            final(self)@.reflector == old(self)@.reflector,
            final(self)@.plugboard == old(self)@.plugboard,
            final(self)@.rotors.len() == old(self)@.rotors.len(),
            forall|i: int|
                0 <= i < old(self)@.rotors.len() ==> (#[trigger] final(self)@.rotors[i]).table
                    == old(self)@.rotors[i].table && final(self)@.rotors[i].position == 0,
            final(self)@.wf(),
    {
        proof {
            assert forall|i: int| 0 <= i < self@.rotors.len() implies (#[trigger] self@.rotors[
                i]).size() > 0 by {
                assert(self@.rotors[i].wf());
            }
        }
        match self.rotor_set.reset_positions() {
            Ok(rs) => {
                self.rotor_set = rs;
            },
            Err(_) => {
                proof {
                    assert(false);
                }
            },
        }
        proof {
            assert forall|i: int| 0 <= i < self@.rotors.len() implies (#[trigger] self@.rotors[
                i]).wf() && self@.rotors[i].size() == self@.size() by {
                assert(old(self)@.rotors[i].wf());
                assert(self@.rotors[i].table == old(self)@.rotors[i].table);
            }
        }
    }

    /// One index through plugboard, rotors, reflector and back; the
    /// composed substitution the machine applies between symbol lookups.
    pub fn process(&self, input: usize) -> (r: Result<usize, CipherError>)
        requires
            self@.wf(),
            (input as int) < self@.size(),
        ensures
            r matches Ok(v) && v == self@.process(input as int),
            0 <= self@.process(input as int) < self@.size(),
    {
        let ghost n = self@.size();
        let value = self.plugboard.encode(input);
        proof {
            lemma_plugboard_involution(self@.plugboard, n as nat, input as int);
        }
        let value = match self.rotor_set.encode(value) {
            Ok(v) => v,
            Err(_) => {
                proof {
                    assert(false);
                }
                0
            },
        };
        proof {
            lemma_stack_round_trip(self@.rotors, n, plug_spec(self@.plugboard, input as int));
        }
        let value = match self.reflector.encode(value) {
            Ok(v) => v,
            Err(_) => {
                proof {
                    assert(false);
                }
                0
            },
        };
        proof {
            lemma_partner_bounded(
                self@.reflector,
                n as nat,
                stack_enc(self@.rotors, plug_spec(self@.plugboard, input as int)),
            );
        }
        let value = match self.rotor_set.decode(value) {
            Ok(v) => v,
            Err(_) => {
                proof {
                    assert(false);
                }
                0
            },
        };
        proof {
            lemma_stack_round_trip(
                self@.rotors,
                n,
                spec_partner(
                    self@.reflector,
                    stack_enc(self@.rotors, plug_spec(self@.plugboard, input as int)),
                ),
            );
            lemma_plugboard_involution(self@.plugboard, n as nat, value as int);
        }
        let value = self.plugboard.encode(value);
        Ok(value)
    }

    /// One symbol through the machine at its current state: looked up in
    /// the alphabet, processed as an index, and mapped back to a symbol.
    /// `UnknownSymbol` exactly when the alphabet lacks the symbol.
    pub fn encode(&self, input: char) -> (r: Result<char, CipherError>)
        requires
            self@.wf(),
        ensures
            r is Ok <==> self@.alphabet.contains(input),
            r matches Ok(c) ==> c == self@.encode_char(input) && self@.alphabet.contains(c),
            r is Err ==> r == Err::<char, CipherError>(CipherError::UnknownSymbol),
    {
        let i: usize = match self.character_set.encode(input) {
            Ok(c) => c,
            Err(_) => {
                return Err(CipherError::UnknownSymbol);
            },
        };
        proof {
            assert(self@.alphabet[i as int] == input);
            assert(self@.alphabet.index_of(input) == i as int) by {
                let j = self@.alphabet.index_of(input);
                assert(0 <= j < self@.alphabet.len() && self@.alphabet[j] == input);
            }
        }
        let e: usize = match self.process(i) {
            Ok(v) => v,
            Err(_) => {
                proof {
                    assert(false);
                }
                0
            },
        };
        match self.character_set.decode(e) {
            Ok(c) => {
                proof {
                    assert(self@.alphabet.contains(self@.alphabet[e as int]));
                }
                Ok(c)
            },
            Err(_) => {
                proof {
                    assert(false);
                }
                Err(CipherError::IndexOutOfRange)
            },
        }
    }

    /// Identical to `encode`: the machine is reciprocal, so decoding is
    /// the same operation under matching rotor state.
    pub fn decode(&self, value: char) -> (r: Result<char, CipherError>)
        requires
            self@.wf(),
        ensures
            r is Ok <==> self@.alphabet.contains(value),
            r matches Ok(c) ==> c == self@.encode_char(value) && self@.alphabet.contains(c),
            r is Err ==> r == Err::<char, CipherError>(CipherError::UnknownSymbol),
    {
        self.encode(value)
    }
}

} // verus!
