//! Structural address atoms and the lazy, indefinitely extensible address
//! stream of a content.
use crate::fallback::FallbackAddress;
use crate::lexicon::Lexicon;
use crate::scheme::{
    bytes_ok, construction_failure, fallback_atom, lemma_walk_in_range, node_atom, stream_atom, stream_prefix, walk,
    CompiledScheme, CompiledView, Scheme, SchemeError, WalkState,
};
use vstd::prelude::*;

verus! {

/// Structural TECA address atom, independent of any textual lexicon.
#[derive(Clone, Copy, Debug, PartialEq, Eq, Structural, Hash, PartialOrd, Ord)]
pub struct AtomId(pub u32);

impl AtomId {
    pub fn get(self) -> (r: u32)
        ensures
            r == self.0,
    {
        self.0
    }
}

/// Lazy append-only address stream. It owns only traversal state and its copy
/// of the compiled scheme; the content is borrowed.
pub struct Address<'a> {
    compiled: CompiledScheme,
    bytes: &'a [u8],
    next_node: Option<u32>,
    fallback: Option<FallbackAddress<'a>>,
    position: Ghost<nat>,
}

impl<'a> Address<'a> {
    /// The compiled scheme the stream follows.
    pub closed spec fn compiled(&self) -> CompiledView {
        self.compiled@
    }

    /// The content.
    pub closed spec fn bytes(&self) -> Seq<u8> {
        self.bytes@
    }

    /// Atoms emitted so far.
    pub closed spec fn position(&self) -> nat {
        self.position@
    }

    pub closed spec fn wf(&self) -> bool {
        let cv = self.compiled@;
        let b = self.bytes@;
        &&& self.compiled.wf()
        &&& bytes_ok(b.len())
        &&& match walk(cv, b, self.position@) {
            WalkState::Tree(n) => {
                &&& self.next_node == Some(n as u32)
                &&& n < cv.scheme.nodes.len()
                &&& self.fallback is None
            },
            WalkState::Fallback(d) => {
                &&& self.next_node is None
                &&& d <= self.position@
                &&& match &self.fallback {
                    None => d == 0,
                    Some(fa) => {
                        &&& fa.wf()
                        &&& fa.depth() == d
                        &&& fa.bytes() == b
                        &&& forall|k: nat| #[trigger] fa.atom_at(k) == fallback_atom(cv, b, k).0
                    },
                }
            },
        }
    }

    /// The stream of `bytes` under `compiled`, from its first atom.
    pub fn new(compiled: &CompiledScheme, bytes: &'a [u8]) -> (r: Address<'a>)
        requires
            compiled.wf(),
            bytes_ok(bytes@.len()),
        ensures
            r.wf(),
            r.compiled() == compiled@,
            r.bytes() == bytes@,
            r.position() == 0,
    {
        let c = compiled.duplicate();
        let next_node = c.root();
        proof {
            c.lemma_wf_ok();
            lemma_walk_in_range(c@, bytes@, 0);
        }
        Address { compiled: c, bytes, next_node, fallback: None, position: Ghost(0) }
    }

    /// The next atom of the stream; streams never end.
    pub fn next(&mut self) -> (r: Option<AtomId>)
        requires
            old(self).wf(),
            old(self).position() < usize::MAX,
        ensures
            r == Some(stream_atom(old(self).compiled(), old(self).bytes(), old(self).position())),
            final(self).wf(),
            final(self).position() == old(self).position() + 1,
            final(self).compiled() == old(self).compiled(),
            final(self).bytes() == old(self).bytes(),
    {
        let ghost cv = self.compiled@;
        let ghost b = self.bytes@;
        let ghost pos = self.position@;
        proof {
            self.compiled.lemma_wf_ok();
            lemma_walk_in_range(cv, b, pos + 1);
        }
        match self.fallback.take() {
            Some(mut fa) => {
                let atom = fa.next_atom();
                self.fallback = Some(fa);
                self.position = Ghost(pos + 1);
                return Some(atom);
            },
            None => {},
        }
        match self.next_node {
            None => {
                let mut fa = self.compiled.start_fallback(self.bytes);
                let atom = fa.next_atom();
                self.fallback = Some(fa);
                self.position = Ghost(pos + 1);
                Some(atom)
            },
            Some(n) => {
                let atom = self.compiled.evaluate_node(n, self.bytes);
                let next = self.compiled.child(n, atom);
                self.next_node = next;
                self.position = Ghost(pos + 1);
                Some(atom)
            },
        }
    }

    /// The next `n` atoms.
    pub fn take_atoms(&mut self, n: usize) -> (r: Vec<AtomId>)
        requires
            old(self).wf(),
            old(self).position() + n < usize::MAX,
        ensures
            r@ == Seq::new(
                n as nat,
                |i: int| stream_atom(old(self).compiled(), old(self).bytes(), old(self).position() + i as nat),
            ),
            final(self).wf(),
            final(self).position() == old(self).position() + n,
            final(self).compiled() == old(self).compiled(),
            final(self).bytes() == old(self).bytes(),
    {
        let ghost start = self.position();
        let mut out: Vec<AtomId> = Vec::new();
        let mut i: usize = 0;
        while i < n
            invariant
                i <= n,
                self.wf(),
                self.position() == start + i,
                start + n < usize::MAX,
                self.compiled() == old(self).compiled(),
                self.bytes() == old(self).bytes(),
                start == old(self).position(),
                out@ == Seq::new(
                    i as nat,
                    |k: int| stream_atom(old(self).compiled(), old(self).bytes(), start + k as nat),
                ),
            decreases n - i,
        {
            let a = self.next();
            match a {
                Some(x) => {
                    out.push(x);
                },
                None => {
                    proof {
                        assert(false);
                    }
                },
            }
            i = i + 1;
            proof {
                assert(out@ =~= Seq::new(
                    i as nat,
                    |k: int| stream_atom(old(self).compiled(), old(self).bytes(), start + k as nat),
                ));
            }
        }
        out
    }
}

impl Scheme {
    /// The address stream of `bytes`, after validating the scheme and
    /// constructing its fields.
    pub fn address<'a>(&self, bytes: &'a [u8]) -> (r: Result<Address<'a>, SchemeError>)
        requires
            bytes_ok(bytes@.len()),
        ensures
            r matches Ok(a) ==> a.wf() && a.compiled().scheme == self@ && a.bytes() == bytes@
                && a.position() == 0,
            crate::scheme::scheme_simple(self@) && crate::scheme::validate_spec(self@) is Ok ==> (r matches Ok(
                a,
            ) && a.compiled() == crate::scheme::simple_view(self@)),
            crate::scheme::scheme_simple(self@) && crate::scheme::validate_spec(self@) is Err ==> r
                == Err::<Address<'a>, SchemeError>(crate::scheme::validate_spec(self@)->Err_0),
            crate::scheme::validate_spec(self@) is Err ==> r is Err,
            r matches Err(e) ==> crate::scheme::validate_spec(self@) == Err::<(), SchemeError>(e) || construction_failure(e),
    {
        match self.compile() {
            Ok(cs) => Ok(Address::new(&cs, bytes)),
            Err(e) => Err(e),
        }
    }

    /// The first `depth` atoms of the address stream of `bytes`.
    pub fn prefix(&self, bytes: &[u8], depth: usize) -> (r: Result<Vec<AtomId>, SchemeError>)
        requires
            bytes_ok(bytes@.len()),
            depth < usize::MAX,
        ensures
            r matches Ok(v) ==> v@.len() == depth,
            crate::scheme::scheme_simple(self@) && crate::scheme::validate_spec(self@) is Ok ==> r
                == Ok::<Vec<AtomId>, SchemeError>(r->Ok_0) && r->Ok_0@ == stream_prefix(
                crate::scheme::simple_view(self@),
                bytes@,
                depth as nat,
            ),
            crate::scheme::scheme_simple(self@) && crate::scheme::validate_spec(self@) is Err ==> r
                == Err::<Vec<AtomId>, SchemeError>(crate::scheme::validate_spec(self@)->Err_0),
            crate::scheme::validate_spec(self@) is Err ==> r is Err,
            r matches Err(e) ==> crate::scheme::validate_spec(self@) == Err::<(), SchemeError>(e) || construction_failure(e),
    {
        match self.address(bytes) {
            Ok(mut a) => {
                let v = a.take_atoms(depth);
                proof {
                    assert(v@ =~= stream_prefix(a.compiled(), bytes@, depth as nat));
                }
                Ok(v)
            },
            Err(e) => Err(e),
        }
    }
}


/// A scheme and a lexicon that cannot address the same atom space.
#[derive(Clone, Debug, PartialEq, Eq)]
pub enum TokenAddressError {
    CapacityMismatch { scheme: u32, lexicon: usize },
}

/// Lazy address stream that yields the lexicon bytes of each atom.
pub struct TokenAddress<'address, 'lexicon> {
    address: Address<'address>,
    lexicon: &'lexicon Lexicon,
}

impl<'address, 'lexicon> TokenAddress<'address, 'lexicon> {
    /// The underlying atom stream.
    pub closed spec fn address(&self) -> Address<'address> {
        self.address
    }

    /// The lexicon's atoms.
    pub closed spec fn lexicon(&self) -> Seq<Seq<u8>> {
        self.lexicon@
    }

    /// The lexicon bytes of the next atom of the stream; `None` only when
    /// the atom lies outside the lexicon.
    pub fn next(&mut self) -> (r: Option<&'lexicon [u8]>)
        requires
            old(self).address().wf(),
            old(self).address().position() < usize::MAX,
        ensures
            final(self).address().wf(),
            final(self).address().position() == old(self).address().position() + 1,
            final(self).address().compiled() == old(self).address().compiled(),
            final(self).address().bytes() == old(self).address().bytes(),
            final(self).lexicon() == old(self).lexicon(),
            ({
                let atom = stream_atom(
                    old(self).address().compiled(),
                    old(self).address().bytes(),
                    old(self).address().position(),
                );
                &&& atom.0 < old(self).lexicon().len() ==> (r matches Some(b) && b@ == old(self).lexicon()[atom.0 as int])
                &&& atom.0 >= old(self).lexicon().len() ==> r is None
            }),
    {
        match self.address.next() {
            Some(atom) => match self.lexicon.atom(atom) {
                Ok(b) => Some(b),
                Err(_) => None,
            },
            None => None,
        }
    }
}

impl<'a> Address<'a> {
    /// Attaches a lexicon of the scheme's capacity, to yield atom bytes.
    pub fn tokens<'lexicon>(self, lexicon: &'lexicon Lexicon) -> (r: Result<
        TokenAddress<'a, 'lexicon>,
        TokenAddressError,
    >)
        ensures
            self.compiled().scheme.capacity == lexicon@.len() ==> (r matches Ok(t) && t.address() == self && t.lexicon()
                == lexicon@),
            self.compiled().scheme.capacity != lexicon@.len() ==> r == Err::<TokenAddress<'a, 'lexicon>, TokenAddressError>(
                TokenAddressError::CapacityMismatch { scheme: self.compiled().scheme.capacity, lexicon: lexicon@.len() as usize },
            ),
    {
        let capacity = self.compiled.scheme().capacity;
        let n = lexicon.capacity();
        if capacity as usize != n {
            return Err(TokenAddressError::CapacityMismatch { scheme: capacity, lexicon: n });
        }
        Ok(TokenAddress { address: self, lexicon })
    }
}

} // verus!
