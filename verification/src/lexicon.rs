//! Lexicons: the byte strings that stand for the structural atoms of a scheme.
use crate::address::AtomId;
use crate::neighborhood::bytes_eq;
use vstd::prelude::*;

verus! {

/// An ordered list of distinct atom byte strings; atom `i` renders as entry `i`.
#[derive(Clone, Debug, PartialEq, Eq)]
pub struct Lexicon {
    atoms: Vec<Vec<u8>>,
}

#[derive(Clone, Debug, PartialEq, Eq)]
pub enum LexiconError {
    TooSmall(usize),
    TooLarge(usize),
    DuplicateAtom(Vec<u8>),
    AtomOutOfRange { atom: u32, capacity: usize },
}

/// Byte strings of a list of byte vectors.
pub open spec fn byte_views(v: Seq<Vec<u8>>) -> Seq<Seq<u8>> {
    v.map_values(|x: Vec<u8>| x@)
}

/// Whether atom `j` repeats an earlier atom.
pub open spec fn repeats_earlier(s: Seq<Seq<u8>>, j: int) -> bool {
    exists|i: int| 0 <= i < j && s[i] == #[trigger] s[j]
}

/// Position of the first atom that repeats an earlier one.
pub open spec fn first_repeat(s: Seq<Seq<u8>>) -> Option<int> {
    if exists|j: int| 0 <= j < s.len() && #[trigger] repeats_earlier(s, j) {
        Some(choose|j: int| 0 <= j < s.len() && #[trigger] repeats_earlier(s, j) && forall|k: int| 0 <= k < j ==> !repeats_earlier(s, k))
    } else {
        None
    }
}

/// At least two atoms, a count that fits `u32`, and no atom twice.
pub open spec fn lexicon_ok(s: Seq<Seq<u8>>) -> bool {
    &&& 2 <= s.len() <= u32::MAX
    &&& forall|i: int, j: int| 0 <= i < j < s.len() ==> s[i] != s[j]
}

impl View for Lexicon {
    type V = Seq<Seq<u8>>;

    closed spec fn view(&self) -> Seq<Seq<u8>> {
        byte_views(self.atoms@)
    }
}

/// The first atom that repeats an earlier one is the one reported.
proof fn lemma_first_repeat(s: Seq<Seq<u8>>, j: int)
    requires
        0 <= j < s.len(),
        repeats_earlier(s, j),
        forall|k: int| 0 <= k < j ==> !repeats_earlier(s, k),
    ensures
        first_repeat(s) == Some(j),
{
    let c = choose|c: int| 0 <= c < s.len() && #[trigger] repeats_earlier(s, c) && forall|k: int| 0 <= k < c ==> !repeats_earlier(s, k);
    if c < j {
        assert(!repeats_earlier(s, c));
    }
    if c > j {
        assert(!repeats_earlier(s, j));
    }
}

/// Whether atom `j` repeats an earlier atom.
fn repeats(atoms: &Vec<Vec<u8>>, j: usize) -> (r: bool)
    requires
        j < atoms@.len(),
    ensures
        r == repeats_earlier(byte_views(atoms@), j as int),
{
    let ghost s = byte_views(atoms@);
    let mut i: usize = 0;
    while i < j
        invariant
            s == byte_views(atoms@),
            i <= j < atoms@.len(),
            forall|k: int| 0 <= k < i ==> s[k] != s[j as int],
        decreases j - i,
    {
        if bytes_eq(atoms[i].as_slice(), atoms[j].as_slice()) {
            proof {
                assert(s[i as int] == s[j as int]);
            }
            return true;
        }
        i = i + 1;
    }
    false
}

impl Lexicon {
    pub closed spec fn wf(&self) -> bool {
        lexicon_ok(self@)
    }

    pub proof fn lemma_wf(&self)
        requires
            self.wf(),
        ensures
            lexicon_ok(self@),
    {
    }

    /// A lexicon over `atoms`: at least two, a count that fits `u32`, no
    /// atom twice (the first repeated atom is reported).
    pub fn new(atoms: Vec<Vec<u8>>) -> (r: Result<Self, LexiconError>)
        ensures
            atoms@.len() < 2 ==> r == Err::<Self, LexiconError>(LexiconError::TooSmall(atoms@.len() as usize)),
            atoms@.len() > u32::MAX ==> r == Err::<Self, LexiconError>(LexiconError::TooLarge(atoms@.len() as usize)),
            2 <= atoms@.len() <= u32::MAX && first_repeat(byte_views(atoms@)) is Some ==> (r matches Err(
                LexiconError::DuplicateAtom(v),
            ) && v@ == byte_views(atoms@)[first_repeat(byte_views(atoms@))->0]),
            2 <= atoms@.len() <= u32::MAX && first_repeat(byte_views(atoms@)) is None ==> (r matches Ok(l) && l.wf() && l@
                == byte_views(atoms@)),
    {
        let n = atoms.len();
        if n < 2 {
            return Err(LexiconError::TooSmall(n));
        }
        if n > 4294967295usize {
            return Err(LexiconError::TooLarge(n));
        }
        let ghost s = byte_views(atoms@);
        let mut j: usize = 0;
        while j < n
            invariant
                n == atoms@.len(),
                2 <= n <= u32::MAX,
                s == byte_views(atoms@),
                j <= n,
                forall|k: int| 0 <= k < j ==> !repeats_earlier(s, k),
            decreases n - j,
        {
            if repeats(&atoms, j) {
                proof {
                    lemma_first_repeat(s, j as int);
                }
                return Err(LexiconError::DuplicateAtom(crate::neighborhood::copy_bytes(atoms[j].as_slice())));
            }
            j = j + 1;
        }
        proof {
            assert forall|x: int, y: int| 0 <= x < y < s.len() implies s[x] != s[y] by {
                assert(!repeats_earlier(s, y));
            }
            assert(first_repeat(s) is None);
        }
        Ok(Lexicon { atoms })
    }

    /// Number of atoms.
    pub fn capacity(&self) -> (r: usize)
        ensures
            r == self@.len(),
    {
        self.atoms.len()
    }

    /// The byte string of atom `id`.
    pub fn atom(&self, id: AtomId) -> (r: Result<&[u8], LexiconError>)
        ensures
            id.0 < self@.len() ==> (r matches Ok(b) && b@ == self@[id.0 as int]),
            id.0 >= self@.len() ==> r == Err::<&[u8], LexiconError>(
                LexiconError::AtomOutOfRange { atom: id.0, capacity: self@.len() as usize },
            ),
    {
        let k = id.0 as usize;
        if k < self.atoms.len() {
            Ok(self.atoms[k].as_slice())
        } else {
            Err(LexiconError::AtomOutOfRange { atom: id.0, capacity: self.atoms.len() })
        }
    }

    /// The atoms in order.
    pub fn atoms(&self) -> (r: &[Vec<u8>])
        ensures
            byte_views(r@) == self@,
    {
        self.atoms.as_slice()
    }
}

} // verus!
