use vstd::prelude::*;
use crate::error::Error;

verus! {

/// 256 to the power `n`.
pub open spec fn pow256(n: nat) -> nat
    decreases n,
{
    if n == 0 {
        1
    } else {
        256 * pow256((n - 1) as nat)
    }
}

/// The unsigned integer that a little-endian byte string denotes.
pub open spec fn le_value(s: Seq<u8>) -> nat
    decreases s.len(),
{
    if s.len() == 0 {
        0
    } else {
        le_value(s.drop_last()) + pow256((s.len() - 1) as nat) * (s.last() as nat)
    }
}

/// A byte string of length `n` denotes an integer below 256^n.
pub proof fn lemma_le_value_bound(s: Seq<u8>)
    ensures
        le_value(s) < pow256(s.len()),
    decreases s.len(),
{
    if s.len() > 0 {
        let d = s.drop_last();
        lemma_le_value_bound(d);
        let p = pow256(d.len());
        let x = le_value(d);
        let l = s.last() as nat;
        assert(x + p * l < 256 * p) by (nonlinear_arith)
            requires
                x < p,
                l <= 255,
        ;
    }
}

/// The all-zero string denotes zero.
pub proof fn lemma_le_value_zeros(s: Seq<u8>)
    requires
        forall|i: int| 0 <= i < s.len() ==> s[i] == 0,
    ensures
        le_value(s) == 0,
    decreases s.len(),
{
    if s.len() > 0 {
        lemma_le_value_zeros(s.drop_last());
    }
}

/// The parameters of a prime field: its modulus, written little-endian in a
/// buffer of whole 64-bit words. The buffer's length is the byte width of every
/// encoded element.
pub struct FieldParams {
    pub modulus: Vec<u8>,
}

impl FieldParams {
    pub open spec fn width(&self) -> nat {
        self.modulus@.len()
    }

    pub open spec fn modulus_value(&self) -> nat {
        le_value(self.modulus@)
    }

    /// The width is the least positive number of 64-bit words that holds the
    /// modulus, and the modulus is positive.
    pub open spec fn wf(&self) -> bool {
        &&& self.modulus@.len() > 0
        &&& self.modulus@.len() % 8 == 0
        &&& self.modulus_value() > 0
        &&& self.modulus_value() >= pow256((self.modulus@.len() - 8) as nat)
    }

    /// Whether `s` is the canonical encoding of an element of this field.
    pub open spec fn is_element(&self, s: Seq<u8>) -> bool {
        s.len() == self.width() && le_value(s) < self.modulus_value()
    }
}

/// A field element, held as its canonical little-endian encoding.
pub struct FieldElement {
    pub bytes: Vec<u8>,
}

impl View for FieldElement {
    type V = Seq<u8>;

    open spec fn view(&self) -> Seq<u8> {
        self.bytes@
    }
}

/// `s` padded with zero bytes, or truncated, to exactly `w` bytes.
pub open spec fn fit_to_width(s: Seq<u8>, w: nat) -> Seq<u8> {
    if s.len() >= w {
        s.take(w as int)
    } else {
        s + Seq::new((w - s.len()) as nat, |i: int| 0u8)
    }
}

/// The encoding of zero in the field.
pub open spec fn zero_spec(f: &FieldParams) -> Seq<u8> {
    Seq::new(f.width(), |i: int| 0u8)
}

/// What decoding `bytes` in field `f` yields: zero for an empty buffer, else
/// the buffer fitted to the field's width, provided that it denotes an integer
/// below the modulus.
pub open spec fn decode_spec(f: &FieldParams, bytes: Seq<u8>) -> Result<Seq<u8>, Error> {
    if bytes.len() == 0 {
        Ok(zero_spec(f))
    } else if le_value(fit_to_width(bytes, f.width())) < f.modulus_value() {
        Ok(fit_to_width(bytes, f.width()))
    } else {
        Err(Error::DecodeError)
    }
}

pub open spec fn elem_result_view(r: Result<FieldElement, Error>) -> Result<Seq<u8>, Error> {
    match r {
        Ok(x) => Ok(x@),
        Err(e) => Err(e),
    }
}

/// Whether the little-endian integer `a` is below `b`, for buffers of one length.
pub fn le_less(a: &Vec<u8>, b: &Vec<u8>) -> (r: bool)
    requires
        a@.len() == b@.len(),
    ensures
        r == (le_value(a@) < le_value(b@)),
{
    let mut lt = false;
    let mut i: usize = 0;
    while i < a.len()
        invariant
            a@.len() == b@.len(),
            0 <= i <= a@.len(),
            lt == (le_value(a@.take(i as int)) < le_value(b@.take(i as int))),
        decreases a@.len() - i,
    {
        proof {
            let ta = a@.take(i as int);
            let tb = b@.take(i as int);
            let na = a@.take(i + 1);
            let nb = b@.take(i + 1);
            assert(na.drop_last() =~= ta);
            assert(nb.drop_last() =~= tb);
            lemma_le_value_bound(ta);
            lemma_le_value_bound(tb);
            let p = pow256(i as nat);
            let x = le_value(ta);
            let y = le_value(tb);
            let ai = a@[i as int] as nat;
            let bi = b@[i as int] as nat;
            assert(le_value(na) == x + p * ai);
            assert(le_value(nb) == y + p * bi);
            if ai < bi {
                assert(x + p * ai < y + p * bi) by (nonlinear_arith)
                    requires
                        x < p,
                        ai < bi,
                ;
            } else if ai > bi {
                assert(y + p * bi < x + p * ai) by (nonlinear_arith)
                    requires
                        y < p,
                        bi < ai,
                ;
            }
        }
        if a[i] < b[i] {
            lt = true;
        } else if a[i] > b[i] {
            lt = false;
        }
        i = i + 1;
    }
    assert(a@.take(a@.len() as int) =~= a@);
    assert(b@.take(b@.len() as int) =~= b@);
    lt
}

/// A copy of a byte buffer.
pub fn copy_bytes(s: &Vec<u8>) -> (r: Vec<u8>)
    ensures
        r@ == s@,
{
    let mut r: Vec<u8> = Vec::new();
    let mut i: usize = 0;
    while i < s.len()
        invariant
            0 <= i <= s@.len(),
            r@ == s@.take(i as int),
        decreases s@.len() - i,
    {
        r.push(s[i]);
        i = i + 1;
    }
    assert(s@.take(s@.len() as int) =~= s@);
    r
}

impl FieldElement {
    /// The zero element of field `f`.
    pub fn zero(f: &FieldParams) -> (r: FieldElement)
        requires
            f.wf(),
        ensures
            r@ == zero_spec(f),
            f.is_element(r@),
    {
        let mut bytes: Vec<u8> = Vec::new();
        let mut i: usize = 0;
        while i < f.modulus.len()
            invariant
                0 <= i <= f.modulus@.len(),
                bytes@ =~= Seq::new(i as nat, |j: int| 0u8),
            decreases f.modulus@.len() - i,
        {
            bytes.push(0u8);
            i = i + 1;
        }
        proof {
            lemma_le_value_zeros(bytes@);
        }
        FieldElement { bytes }
    }

    /// A copy of this element.
    pub fn copy(&self) -> (r: FieldElement)
        ensures
            r@ == self@,
    {
        FieldElement { bytes: copy_bytes(&self.bytes) }
    }
}

/// Decodes a little-endian byte buffer into an element of field `f`. An empty
/// buffer is zero; any other is zero-padded or truncated to the field's width
/// and must then denote an integer below the modulus.
pub fn le_to_fr(f: &FieldParams, bytes_le: &[u8]) -> (r: Result<FieldElement, Error>)
    requires
        f.wf(),
    ensures
        elem_result_view(r) == decode_spec(f, bytes_le@),
        r matches Ok(x) ==> f.is_element(x@),
{
    if bytes_le.len() == 0 {
        return Ok(FieldElement::zero(f));
    }
    let w = f.modulus.len();
    let mut bytes: Vec<u8> = Vec::new();
    let mut i: usize = 0;
    while i < w
        invariant
            w == f.width(),
            0 <= i <= w,
            bytes@ =~= fit_to_width(bytes_le@, w as nat).take(i as int),
        decreases w - i,
    {
        if i < bytes_le.len() {
            bytes.push(bytes_le[i]);
        } else {
            bytes.push(0u8);
        }
        i = i + 1;
    }
    assert(bytes@ =~= fit_to_width(bytes_le@, w as nat));
    if le_less(&bytes, &f.modulus) {
        Ok(FieldElement { bytes })
    } else {
        Err(Error::DecodeError)
    }
}

/// The canonical little-endian encoding of `x`.
pub fn fr_to_le(x: &FieldElement) -> (r: Vec<u8>)
    ensures
        r@ == x@,
{
    copy_bytes(&x.bytes)
}

/// Decoding an element's encoding gives the element back; decoding the empty
/// buffer gives zero.
pub proof fn lemma_decode_encode(f: &FieldParams, x: Seq<u8>)
    requires
        f.wf(),
        f.is_element(x),
    ensures
        decode_spec(f, x) == Ok::<Seq<u8>, Error>(x),
        decode_spec(f, Seq::<u8>::empty()) == Ok::<Seq<u8>, Error>(zero_spec(f)),
{
    assert(x.take(x.len() as int) =~= x);
}

} // verus!
