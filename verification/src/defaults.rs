//! The canonical scheme: a CTM-B9 content transform followed directly by the
//! static Hasse-probe fallback over the prime field of 12,347 elements, in an
//! atom space of 12,359.
use crate::address::Address;
use crate::codec::ContentCodecDescriptor;
use crate::fallback::FallbackDescriptor;
use crate::field::standardff::StandardFieldDescriptor;
use crate::neighborhood::{Neighborhood, NeighborhoodError};
use crate::field::orders::spec_prime;
use crate::scheme::{initial_reach, scheme_simple, simple_view, validate_spec, Scheme, SchemeError, SchemeView};
use vstd::prelude::*;

verus! {

/// Atom-space size of the canonical scheme.
pub const DEFAULT_CAPACITY: u32 = 12359;

/// Mathematical content of the canonical scheme.
pub open spec fn default_scheme_view() -> SchemeView {
    SchemeView {
        capacity: 12359,
        codec: ContentCodecDescriptor::CtmB9,
        root: None,
        nodes: Seq::empty(),
        fallback: FallbackDescriptor::StaticPolynomialV2 {
            codec: ContentCodecDescriptor::CtmB9,
            field: StandardFieldDescriptor { characteristic: 12347, degree: 1 },
            optimized_points: [6743u32, 2728u32, 6148u32, 1809u32],
        },
    }
}

/// The canonical addressing scheme.
pub fn default_scheme() -> (r: Scheme)
    ensures
        r@ == default_scheme_view(),
{
    let r = Scheme {
        capacity: DEFAULT_CAPACITY,
        codec: ContentCodecDescriptor::CtmB9,
        root: None,
        nodes: Vec::new(),
        fallback: FallbackDescriptor::StaticPolynomialV2 {
            codec: ContentCodecDescriptor::CtmB9,
            field: StandardFieldDescriptor { characteristic: 12347, degree: 1 },
            optimized_points: [6743u32, 2728u32, 6148u32, 1809u32],
        },
    };
    proof {
        assert(r@.nodes =~= Seq::empty());
    }
    r
}

/// 12347 is prime: no number from 2 to 111 divides it, and a divisor above
/// 111 would have a cofactor below 112.
proof fn lemma_canonical_characteristic_prime()
    ensures
        spec_prime(12347),
{
    assert forall|e: int| 2 <= e <= 111 implies #[trigger] (12347int % e) != 0 by {
        if e == 2 {
        } else if e == 3 {
        } else if e == 4 {
        } else if e == 5 {
        } else if e == 6 {
        } else if e == 7 {
        } else if e == 8 {
        } else if e == 9 {
        } else if e == 10 {
        } else if e == 11 {
        } else if e == 12 {
        } else if e == 13 {
        } else if e == 14 {
        } else if e == 15 {
        } else if e == 16 {
        } else if e == 17 {
        } else if e == 18 {
        } else if e == 19 {
        } else if e == 20 {
        } else if e == 21 {
        } else if e == 22 {
        } else if e == 23 {
        } else if e == 24 {
        } else if e == 25 {
        } else if e == 26 {
        } else if e == 27 {
        } else if e == 28 {
        } else if e == 29 {
        } else if e == 30 {
        } else if e == 31 {
        } else if e == 32 {
        } else if e == 33 {
        } else if e == 34 {
        } else if e == 35 {
        } else if e == 36 {
        } else if e == 37 {
        } else if e == 38 {
        } else if e == 39 {
        } else if e == 40 {
        } else if e == 41 {
        } else if e == 42 {
        } else if e == 43 {
        } else if e == 44 {
        } else if e == 45 {
        } else if e == 46 {
        } else if e == 47 {
        } else if e == 48 {
        } else if e == 49 {
        } else if e == 50 {
        } else if e == 51 {
        } else if e == 52 {
        } else if e == 53 {
        } else if e == 54 {
        } else if e == 55 {
        } else if e == 56 {
        } else if e == 57 {
        } else if e == 58 {
        } else if e == 59 {
        } else if e == 60 {
        } else if e == 61 {
        } else if e == 62 {
        } else if e == 63 {
        } else if e == 64 {
        } else if e == 65 {
        } else if e == 66 {
        } else if e == 67 {
        } else if e == 68 {
        } else if e == 69 {
        } else if e == 70 {
        } else if e == 71 {
        } else if e == 72 {
        } else if e == 73 {
        } else if e == 74 {
        } else if e == 75 {
        } else if e == 76 {
        } else if e == 77 {
        } else if e == 78 {
        } else if e == 79 {
        } else if e == 80 {
        } else if e == 81 {
        } else if e == 82 {
        } else if e == 83 {
        } else if e == 84 {
        } else if e == 85 {
        } else if e == 86 {
        } else if e == 87 {
        } else if e == 88 {
        } else if e == 89 {
        } else if e == 90 {
        } else if e == 91 {
        } else if e == 92 {
        } else if e == 93 {
        } else if e == 94 {
        } else if e == 95 {
        } else if e == 96 {
        } else if e == 97 {
        } else if e == 98 {
        } else if e == 99 {
        } else if e == 100 {
        } else if e == 101 {
        } else if e == 102 {
        } else if e == 103 {
        } else if e == 104 {
        } else if e == 105 {
        } else if e == 106 {
        } else if e == 107 {
        } else if e == 108 {
        } else if e == 109 {
        } else if e == 110 {
        } else if e == 111 {
        }
    }
    assert forall|d: int| 2 <= d < 12347 implies #[trigger] (12347int % d) != 0 by {
        if d > 111 && 12347int % d == 0 {
            let k = 12347int / d;
            vstd::arithmetic::div_mod::lemma_fundamental_div_mod(12347, d);
            assert(d * k == 12347);
            assert(k >= 2) by (nonlinear_arith)
                requires
                    d * k == 12347,
                    2 <= d < 12347,
            ;
            assert(k <= 111) by (nonlinear_arith)
                requires
                    d * k == 12347,
                    d > 111,
                    k >= 2,
            ;
            vstd::arithmetic::div_mod::lemma_mod_multiples_basic(d, k);
            assert(12347int % k == 0) by {
                vstd::arithmetic::mul::lemma_mul_is_commutative(d, k);
            }
        }
    }
}

/// The canonical scheme validates: its field is prime, fits the atom space,
/// and its opening points are distinct nonzero field points.
proof fn lemma_default_scheme_valid()
    ensures
        scheme_simple(default_scheme_view()),
        validate_spec(default_scheme_view()) is Ok,
{
    lemma_canonical_characteristic_prime();
    vstd::arithmetic::power::lemma_pow1(12347);
    let s = default_scheme_view();
    assert(s.fallback.validate_spec(s.capacity) is Ok);
    assert(initial_reach(s) =~= Seq::<bool>::empty());
}

/// The address stream of `bytes` under the canonical scheme.
pub fn default_atom_ids(bytes: &[u8]) -> (r: Result<Address<'_>, SchemeError>)
    requires
        crate::scheme::bytes_ok(bytes@.len()),
    ensures
        r matches Ok(a) ==> a.wf() && a.compiled().scheme == default_scheme_view() && a.bytes() == bytes@
            && a.position() == 0,
        r matches Ok(a) && a.compiled() == simple_view(default_scheme_view()),
{
    proof {
        lemma_default_scheme_valid();
    }
    let scheme = default_scheme();
    scheme.address(bytes)
}

impl Neighborhood {
    /// An empty neighborhood over the canonical scheme.
    pub fn canonical() -> (r: Result<Neighborhood, NeighborhoodError>)
        ensures
            r matches Ok(n) && n.wf() && n@.entries.len() == 0 && n@.compiled == simple_view(default_scheme_view()),
    {
        proof {
            lemma_default_scheme_valid();
        }
        Neighborhood::new(default_scheme())
    }
}

} // verus!
