use vstd::prelude::*;

use crate::cipher::CipherError;

verus! {

/// An ordered, duplicate-free alphabet. Index and symbol are in bijection
/// over `0..len`; the engine treats the alphabet purely as an index
/// universe of size `n`.
#[derive(Clone, Debug)]
pub struct CharacterSet {
    pub characters: Vec<char>,
}

impl View for CharacterSet {
    type V = Seq<char>;

    open spec fn view(&self) -> Seq<char> {
        self.characters@
    }
}

impl CharacterSet {
    /// The alphabet never holds the same symbol twice.
    pub open spec fn wf(&self) -> bool {
        self@.no_duplicates()
    }

    /// Builds the alphabet from an ordered list of distinct symbols.
    pub fn new(s: &str) -> (r: Self)
        requires
            s@.no_duplicates(),
        ensures
            r@ == s@,
            r.wf(),
    {
        let n: usize = s.unicode_len();
        let mut characters: Vec<char> = Vec::new();
        for i in 0..n
            invariant
                n == s@.len(),
                characters@ == s@.subrange(0, i as int),
        {
            characters.push(s.get_char(i));
            proof {
                assert(characters@ =~= s@.subrange(0, i + 1 as int));
            }
        }
        proof {
            assert(characters@ =~= s@);
        }
        CharacterSet { characters }
    }

    /// An independent copy of the alphabet: the same symbols in order.
    pub(crate) fn copied(&self) -> (r: Self)
        ensures
            r@ == self@,
    {
        let n = self.characters.len();
        let mut characters: Vec<char> = Vec::new();
        for i in 0..n
            invariant
                n == self@.len(),
                characters@ == self@.subrange(0, i as int),
        {
            characters.push(self.characters[i]);
            proof {
                assert(characters@ =~= self@.subrange(0, i + 1 as int));
            }
        }
        proof {
            assert(characters@ =~= self@);
        }
        CharacterSet { characters }
    }

    /// The number of symbols.
    pub fn len(&self) -> (r: usize)
        ensures
            r == self@.len(),
    {
        self.characters.len()
    }

    /// The index of a symbol: the first position holding `c`, or
    /// `UnknownSymbol` when the alphabet does not contain it.
    pub fn encode(&self, c: char) -> (r: Result<usize, CipherError>)
        ensures
            match r {
                Ok(i) => i < self@.len() && self@[i as int] == c && (forall|j: int|
                    0 <= j < i ==> self@[j] != c),
                Err(e) => e == CipherError::UnknownSymbol && !self@.contains(c),
            },
            r is Ok <==> self@.contains(c),
    {
        let n: usize = self.characters.len();
        for i in 0..n
            invariant
                n == self@.len(),
                forall|j: int| 0 <= j < i ==> self@[j] != c,
        {
            if self.characters[i] == c {
                return Ok(i);
            }
        }
        Err(CipherError::UnknownSymbol)
    }

    /// The symbol at an index, or `IndexOutOfRange` when the index is at
    /// or beyond the alphabet's size.
    pub fn decode(&self, i: usize) -> (r: Result<char, CipherError>)
        ensures
            r == if i < self@.len() {
                Ok::<char, CipherError>(self@[i as int])
            } else {
                Err::<char, CipherError>(CipherError::IndexOutOfRange)
            },
    {
        if i >= self.characters.len() {
            Err(CipherError::IndexOutOfRange)
        } else {
            Ok(self.characters[i])
        }
    }
}

} // verus!
