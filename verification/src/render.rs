//! Boundary-preserving textual rendering of address atoms.
//!
//! Lexicon atoms are never concatenated: each renders as its byte length in
//! decimal, a colon, and its bytes in lower-case hex, and atoms are joined
//! by `/`.
use crate::address::{Address, AtomId};
use crate::lexicon::{Lexicon, LexiconError};
use crate::neighborhood::NeighborhoodAddress;
use crate::scheme::stream_atom;
use vstd::prelude::*;

verus! {

/// Digit `d` (below 16) in lower-case hex.
pub open spec fn hex_char(d: nat) -> char {
    if d < 10 {
        (('0' as nat) + d) as char
    } else {
        (('a' as nat) + (d - 10)) as char
    }
}

/// `n` in decimal.
pub open spec fn decimal(n: nat) -> Seq<char>
    decreases n,
{
    if n < 10 {
        seq![hex_char(n)]
    } else {
        decimal(n / 10).push(hex_char(n % 10))
    }
}

/// The number that the decimal digits `s` denote, read left to right.
pub open spec fn decimal_value(s: Seq<char>) -> int
    decreases s.len(),
{
    if s.len() == 0 {
        0
    } else {
        decimal_value(s.drop_last()) * 10 + (s.last() as int - '0' as int)
    }
}

/// `decimal(n)` is the ordinary base-10 numeral of `n`: at least one digit,
/// every character a digit `0`-`9`, no leading zero unless `n` is zero, and
/// read most significant digit first it denotes `n`.
pub proof fn lemma_decimal_numeral(n: nat)
    ensures
        decimal(n).len() >= 1,
        forall|i: int| 0 <= i < decimal(n).len() ==> '0' <= #[trigger] decimal(n)[i] <= '9',
        n > 0 ==> decimal(n)[0] != '0',
        decimal_value(decimal(n)) == n,
    decreases n,
{
    assert(hex_char(n % 10) as int == '0' as int + n % 10);
    if n < 10 {
        assert(decimal(n).drop_last() =~= Seq::<char>::empty());
        assert(decimal(n).last() == hex_char(n));
        assert(decimal_value(decimal(n).drop_last()) == 0);
        assert(decimal_value(decimal(n)) == n);
    } else {
        lemma_decimal_numeral(n / 10);
        let d = decimal(n);
        assert(d.drop_last() =~= decimal(n / 10));
        assert(d[0] == decimal(n / 10)[0]);
        assert(d.last() == hex_char(n % 10));
        assert(n == (n / 10) * 10 + n % 10);
        assert(decimal_value(d.drop_last()) == n / 10);
        assert(decimal_value(d) == decimal_value(d.drop_last()) * 10 + (d.last() as int - '0' as int));
    }
}

/// The bytes `bs` in lower-case hex, two digits each.
pub open spec fn hex_bytes(bs: Seq<u8>) -> Seq<char>
    decreases bs.len(),
{
    if bs.len() == 0 {
        Seq::empty()
    } else {
        hex_bytes(bs.drop_last()) + seq![hex_char(bs.last() as nat / 16), hex_char(bs.last() as nat % 16)]
    }
}

/// One atom: its length, a colon, its bytes in hex.
pub open spec fn render_atom(a: Seq<u8>) -> Seq<char> {
    decimal(a.len()) + seq![':'] + hex_bytes(a)
}

/// Atoms rendered one by one and joined by `/`.
pub open spec fn render_atoms(atoms: Seq<Seq<u8>>) -> Seq<char>
    decreases atoms.len(),
{
    if atoms.len() == 0 {
        Seq::empty()
    } else if atoms.len() == 1 {
        render_atom(atoms[0])
    } else {
        render_atoms(atoms.drop_last()) + seq!['/'] + render_atom(atoms.last())
    }
}

/// First position in `ids` of an atom outside a lexicon of `n` atoms.
pub open spec fn first_outside(ids: Seq<AtomId>, n: nat) -> Option<nat>
    decreases ids.len(),
{
    if ids.len() == 0 {
        None
    } else {
        match first_outside(ids.drop_last(), n) {
            Some(k) => Some(k),
            None => if ids.last().0 >= n {
                Some((ids.len() - 1) as nat)
            } else {
                None
            },
        }
    }
}

/// The lexicon bytes of each atom of `ids`.
pub open spec fn atom_bytes(lexicon: Seq<Seq<u8>>, ids: Seq<AtomId>) -> Seq<Seq<u8>> {
    ids.map_values(|a: AtomId| lexicon[a.0 as int])
}

/// A one-character string for hex digit `d`.
fn digit_str(d: u8) -> (r: &'static str)
    requires
        d < 16,
    ensures
        r@ == seq![hex_char(d as nat)],
{
    proof {
        reveal_strlit("0");
        reveal_strlit("1");
        reveal_strlit("2");
        reveal_strlit("3");
        reveal_strlit("4");
        reveal_strlit("5");
        reveal_strlit("6");
        reveal_strlit("7");
        reveal_strlit("8");
        reveal_strlit("9");
        reveal_strlit("a");
        reveal_strlit("b");
        reveal_strlit("c");
        reveal_strlit("d");
        reveal_strlit("e");
        reveal_strlit("f");
    }
    let r = if d == 0 {
        "0"
    } else if d == 1 {
        "1"
    } else if d == 2 {
        "2"
    } else if d == 3 {
        "3"
    } else if d == 4 {
        "4"
    } else if d == 5 {
        "5"
    } else if d == 6 {
        "6"
    } else if d == 7 {
        "7"
    } else if d == 8 {
        "8"
    } else if d == 9 {
        "9"
    } else if d == 10 {
        "a"
    } else if d == 11 {
        "b"
    } else if d == 12 {
        "c"
    } else if d == 13 {
        "d"
    } else if d == 14 {
        "e"
    } else {
        "f"
    };
    proof {
        assert(r@ =~= seq![hex_char(d as nat)]);
    }
    r
}

/// Appends `n` in decimal.
fn push_decimal(out: &mut String, n: usize)
    ensures
        final(out)@ == old(out)@ + decimal(n as nat),
    decreases n,
{
    if n < 10 {
        out.append(digit_str(n as u8));
    } else {
        push_decimal(out, n / 10);
        out.append(digit_str((n % 10) as u8));
        proof {
            assert(decimal(n as nat) == decimal((n / 10) as nat).push(hex_char((n % 10) as nat)));
        }
    }
}

/// Appends one atom: length, colon, hex bytes.
fn push_atom(out: &mut String, atom: &[u8])
    ensures
        final(out)@ == old(out)@ + render_atom(atom@),
{
    proof {
        reveal_strlit(":");
    }
    push_decimal(out, atom.len());
    out.append(":");
    let ghost before = out@;
    let mut i: usize = 0;
    while i < atom.len()
        invariant
            i <= atom@.len(),
            out@ == before + hex_bytes(atom@.take(i as int)),
        decreases atom@.len() - i,
    {
        let b = atom[i];
        out.append(digit_str(b / 16));
        out.append(digit_str(b % 16));
        proof {
            assert(atom@.take(i + 1).drop_last() =~= atom@.take(i as int));
            assert(atom@.take(i + 1).last() == b);
        }
        i = i + 1;
    }
    proof {
        assert(atom@.take(atom@.len() as int) =~= atom@);
    }
}

/// Renders an address through a lexicon; the first atom outside the lexicon
/// is refused.
pub fn render_neighborhood_address(address: &NeighborhoodAddress, lexicon: &Lexicon) -> (r: Result<
    String,
    LexiconError,
>)
    ensures
        first_outside(address@, lexicon@.len()) is None ==> (r matches Ok(s) && s@ == render_atoms(
            atom_bytes(lexicon@, address@),
        )),
        first_outside(address@, lexicon@.len()) matches Some(k) ==> r == Err::<String, LexiconError>(
            LexiconError::AtomOutOfRange { atom: address@[k as int].0, capacity: lexicon@.len() as usize },
        ),
{
    let ids = address.atoms();
    let mut out = String::new();
    proof {
        reveal_strlit("/");
        assert(out@ =~= render_atoms(atom_bytes(lexicon@, ids@.take(0))));
    }
    let mut i: usize = 0;
    while i < ids.len()
        invariant
            ids@ == address@,
            i <= ids@.len(),
            first_outside(ids@.take(i as int), lexicon@.len()) is None,
            out@ == render_atoms(atom_bytes(lexicon@, ids@.take(i as int))),
        decreases ids@.len() - i,
    {
        let ghost t = ids@.take(i + 1);
        proof {
            assert(t.drop_last() =~= ids@.take(i as int));
            assert(t.last() == ids@[i as int]);
            assert(atom_bytes(lexicon@, t).drop_last() =~= atom_bytes(lexicon@, ids@.take(i as int)));
        }
        let atom = match lexicon.atom(ids[i]) {
            Ok(a) => a,
            Err(e) => {
                proof {
                    lemma_first_outside_prefix(ids@, lexicon@.len(), (i + 1) as nat);
                }
                return Err(e);
            },
        };
        let ghost prev = out@;
        proof {
            reveal_strlit("/");
            assert("/"@ =~= seq!['/']);
        }
        if i != 0 {
            out.append("/");
        }
        push_atom(&mut out, atom);
        proof {
            let ab = atom_bytes(lexicon@, t);
            assert(ab.last() == atom@);
            if i == 0 {
                assert(out@ =~= render_atoms(ab));
            } else {
                assert(ab.drop_last() =~= atom_bytes(lexicon@, t.drop_last()));
                assert(out@ =~= prev + seq!['/'] + render_atom(atom@));
                assert(out@ =~= render_atoms(ab));
            }
        }
        i = i + 1;
    }
    proof {
        assert(ids@.take(ids@.len() as int) =~= ids@);
    }
    Ok(out)
}

/// A refusal within the first `k` atoms is the first refusal overall.
proof fn lemma_first_outside_prefix(ids: Seq<AtomId>, n: nat, k: nat)
    requires
        k <= ids.len(),
        first_outside(ids.take(k as int), n) is Some,
    ensures
        first_outside(ids, n) == first_outside(ids.take(k as int), n),
    decreases ids.len() - k,
{
    if k < ids.len() {
        assert(ids.take(k + 1int).drop_last() =~= ids.take(k as int));
        lemma_first_outside_prefix(ids, n, k + 1);
    } else {
        assert(ids.take(k as int) =~= ids);
    }
}

/// Renders the next `depth` atoms of an address stream through a lexicon;
/// the first atom outside the lexicon is refused, after it was drawn.
pub fn render_text_prefix(address: &mut Address<'_>, lexicon: &Lexicon, depth: usize) -> (r: Result<String, LexiconError>)
    requires
        old(address).wf(),
        old(address).position() + depth < usize::MAX,
    ensures
        final(address).wf(),
        final(address).compiled() == old(address).compiled(),
        final(address).bytes() == old(address).bytes(),
        ({
            let ids = Seq::new(
                depth as nat,
                |i: int| stream_atom(old(address).compiled(), old(address).bytes(), old(address).position() + i as nat),
            );
            &&& first_outside(ids, lexicon@.len()) is None ==> (r matches Ok(s) && s@ == render_atoms(
                atom_bytes(lexicon@, ids),
            ) && final(address).position() == old(address).position() + depth)
            &&& first_outside(ids, lexicon@.len()) matches Some(k) ==> r == Err::<String, LexiconError>(
                LexiconError::AtomOutOfRange { atom: ids[k as int].0, capacity: lexicon@.len() as usize },
            ) && final(address).position() == old(address).position() + k + 1
        }),
{
    let ghost start = address.position();
    let ghost ids = Seq::new(
        depth as nat,
        |i: int| stream_atom(old(address).compiled(), old(address).bytes(), start + i as nat),
    );
    let mut out = String::new();
    proof {
        reveal_strlit("/");
        assert(out@ =~= render_atoms(atom_bytes(lexicon@, ids.take(0))));
    }
    let mut i: usize = 0;
    while i < depth
        invariant
            address.wf(),
            address.compiled() == old(address).compiled(),
            address.bytes() == old(address).bytes(),
            address.position() == start + i,
            start == old(address).position(),
            start + depth < usize::MAX,
            ids == Seq::new(
                depth as nat,
                |i: int| stream_atom(old(address).compiled(), old(address).bytes(), start + i as nat),
            ),
            i <= depth,
            first_outside(ids.take(i as int), lexicon@.len()) is None,
            out@ == render_atoms(atom_bytes(lexicon@, ids.take(i as int))),
        decreases depth - i,
    {
        let ghost t = ids.take(i + 1);
        proof {
            assert(t.drop_last() =~= ids.take(i as int));
            assert(t.last() == ids[i as int]);
            assert(atom_bytes(lexicon@, t).drop_last() =~= atom_bytes(lexicon@, ids.take(i as int)));
        }
        let id = match address.next() {
            Some(a) => a,
            None => AtomId(0),
        };
        let atom = match lexicon.atom(id) {
            Ok(a) => a,
            Err(e) => {
                proof {
                    lemma_first_outside_prefix(ids, lexicon@.len(), (i + 1) as nat);
                }
                return Err(e);
            },
        };
        let ghost prev = out@;
        proof {
            reveal_strlit("/");
            assert("/"@ =~= seq!['/']);
        }
        if i != 0 {
            out.append("/");
        }
        push_atom(&mut out, atom);
        proof {
            let ab = atom_bytes(lexicon@, t);
            assert(ab.last() == atom@);
            if i == 0 {
                assert(out@ =~= render_atoms(ab));
            } else {
                assert(ab.drop_last() =~= atom_bytes(lexicon@, t.drop_last()));
                assert(out@ =~= prev + seq!['/'] + render_atom(atom@));
                assert(out@ =~= render_atoms(ab));
            }
        }
        i = i + 1;
    }
    proof {
        assert(ids.take(depth as int) =~= ids);
    }
    Ok(out)
}

} // verus!
