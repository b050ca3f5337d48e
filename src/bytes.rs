use vstd::prelude::*;
use vstd::utf8::{length_of_first_scalar, pop_first_scalar, valid_first_scalar, valid_utf8};

verus! {

/// The four little-endian bytes of a 32-bit value.
pub open spec fn le_bytes(x: u32) -> Seq<u8> {
    seq![
        (x % 256) as u8,
        ((x / 256) % 256) as u8,
        ((x / 65536) % 256) as u8,
        ((x / 16777216) % 256) as u8,
    ]
}

/// The 32-bit value whose little-endian bytes are `s[0..4]`.
pub open spec fn le_value(s: Seq<u8>) -> u32
    recommends
        s.len() >= 4,
{
    (s[0] as int + s[1] as int * 256 + s[2] as int * 65536 + s[3] as int * 16777216) as u32
}

pub proof fn lemma_le_round_trip(x: u32)
    ensures
        le_bytes(x).len() == 4,
        le_value(le_bytes(x)) == x,
{
    let b = le_bytes(x);
    assert(b[0] as int + b[1] as int * 256 + b[2] as int * 65536 + b[3] as int * 16777216 == x as int)
        by (nonlinear_arith)
        requires
            b[0] as int == x as int % 256,
            b[1] as int == (x as int / 256) % 256,
            b[2] as int == (x as int / 65536) % 256,
            b[3] as int == (x as int / 16777216) % 256,
            0 <= x < 0x1_0000_0000,
    ;
}

/// Appends the four little-endian bytes of `x` to `out`.
pub fn push_u32(out: &mut Vec<u8>, x: u32)
    ensures
        final(out)@ == old(out)@ + le_bytes(x),
{
    out.push((x % 256) as u8);
    out.push(((x / 256) % 256) as u8);
    out.push(((x / 65536) % 256) as u8);
    out.push(((x / 16777216) % 256) as u8);
    assert(final(out)@ =~= old(out)@ + le_bytes(x));
}

/// Reads the 32-bit little-endian value that starts at `at`.
pub fn read_u32(data: &[u8], at: usize) -> (r: u32)
    requires
        at + 4 <= data@.len(),
    ensures
        r == le_value(data@.subrange(at as int, at as int + 4)),
{
    let r = data[at] as u32 + data[at + 1] as u32 * 256 + data[at + 2] as u32 * 65536
        + data[at + 3] as u32 * 16777216;
    r
}

} // verus!

verus! {

/// Concatenating words of four bytes puts word `k` at offset `4 * k`.
pub proof fn lemma_flatten_words(s: Seq<Seq<u8>>)
    requires
        forall|i: int| 0 <= i < s.len() ==> (#[trigger] s[i]).len() == 4,
    ensures
        s.flatten().len() == 4 * s.len(),
        forall|k: int|
            0 <= k < s.len() ==> s.flatten().subrange(4 * k, 4 * k + 4) == #[trigger] s[k],
    decreases s.len(),
{
    if s.len() > 0 {
        let rest = s.drop_first();
        lemma_flatten_words(rest);
        assert(s.flatten() == s[0] + rest.flatten());
        assert forall|k: int| 0 <= k < s.len() implies s.flatten().subrange(4 * k, 4 * k + 4)
            == #[trigger] s[k] by {
            if k == 0 {
                assert(s.flatten().subrange(0, 4) =~= s[0]);
            } else {
                assert(rest[k - 1] == s[k]);
                assert(s.flatten().subrange(4 * k, 4 * k + 4) =~= rest.flatten().subrange(
                    4 * (k - 1),
                    4 * (k - 1) + 4,
                ));
            }
        }
    }
}

/// Taking one more element of `s` appends it to the concatenation.
pub proof fn lemma_flatten_take_next(s: Seq<Seq<u8>>, k: int)
    requires
        0 <= k < s.len(),
    ensures
        s.take(k + 1).flatten() == s.take(k).flatten() + s[k],
{
    assert(s.take(k + 1) =~= s.take(k).push(s[k]));
    s.take(k).lemma_flatten_push(s[k]);
}

/// Whether two byte strings are equal.
pub fn bytes_eq(a: &[u8], b: &[u8]) -> (r: bool)
    ensures
        r == (a@ == b@),
{
    if a.len() != b.len() {
        return false;
    }
    let mut i: usize = 0;
    while i < a.len()
        invariant
            a@.len() == b@.len(),
            i <= a@.len(),
            a@.take(i as int) == b@.take(i as int),
        decreases a@.len() - i,
    {
        if a[i] != b[i] {
            return false;
        }
        assert(a@.take(i as int + 1) =~= a@.take(i as int).push(a@[i as int]));
        assert(b@.take(i as int + 1) =~= b@.take(i as int).push(b@[i as int]));
        i = i + 1;
    }
    assert(a@ =~= a@.take(i as int));
    assert(b@ =~= b@.take(i as int));
    true
}

} // verus!

verus! {

/// A fresh vector holding the bytes of `s`.
pub fn copy_bytes(s: &[u8]) -> (r: Vec<u8>)
    ensures
        r@ == s@,
{
    let mut r: Vec<u8> = Vec::new();
    let mut i: usize = 0;
    while i < s.len()
        invariant
            i <= s@.len(),
            r@ == s@.take(i as int),
        decreases s@.len() - i,
    {
        r.push(s[i]);
        i = i + 1;
        assert(r@ =~= s@.take(i as int));
    }
    assert(s@.take(i as int) =~= s@);
    r
}

} // verus!

verus! {

/// A fresh vector holding `data[from..to]`.
pub fn copy_range(data: &[u8], from: usize, to: usize) -> (r: Vec<u8>)
    requires
        from <= to <= data@.len(),
    ensures
        r@ == data@.subrange(from as int, to as int),
{
    let mut r: Vec<u8> = Vec::new();
    let mut i: usize = from;
    while i < to
        invariant
            from <= i <= to <= data@.len(),
            r@ == data@.subrange(from as int, i as int),
        decreases to - i,
    {
        r.push(data[i]);
        i = i + 1;
        assert(r@ =~= data@.subrange(from as int, i as int));
    }
    r
}

} // verus!

verus! {

/// The length of the scalar that starts `data[at..to]`, or 0 where none starts there.
fn first_scalar_len(data: &[u8], at: usize, to: usize) -> (r: usize)
    requires
        at < to <= data@.len(),
    ensures
        r != 0 <==> valid_first_scalar(data@.subrange(at as int, to as int)),
        r != 0 ==> r == length_of_first_scalar(data@.subrange(at as int, to as int)),
{
    let ghost s = data@.subrange(at as int, to as int);
    let n = to - at;
    let b0 = data[at];
    if b0 <= 0x7f {
        let cp = (b0 & 0x7F) as u32;
        if 0xD800 <= cp && cp <= 0xDFFF {
            return 0;
        }
        return 1;
    }
    if 0xc0 <= b0 && b0 <= 0xdf {
        if n < 2 {
            return 0;
        }
        let b1 = data[at + 1];
        if !(0x80 <= b1 && b1 <= 0xbf) {
            return 0;
        }
        let cp = (((b0 & 0x1F) as u32) << 6) | ((b1 & 0x3f) as u32);
        if cp < 0x80 || (0xD800 <= cp && cp <= 0xDFFF) {
            return 0;
        }
        return 2;
    }
    if 0xe0 <= b0 && b0 <= 0xef {
        if n < 3 {
            return 0;
        }
        let b1 = data[at + 1];
        let b2 = data[at + 2];
        if !(0x80 <= b1 && b1 <= 0xbf && 0x80 <= b2 && b2 <= 0xbf) {
            return 0;
        }
        let cp = (((b0 & 0x0F) as u32) << 12) | (((b1 & 0x3f) as u32) << 6) | ((b2 & 0x3f) as u32);
        if cp < 0x800 || (0xD800 <= cp && cp <= 0xDFFF) {
            return 0;
        }
        return 3;
    }
    if 0xf0 <= b0 && b0 <= 0xf7 {
        if n < 4 {
            return 0;
        }
        let b1 = data[at + 1];
        let b2 = data[at + 2];
        let b3 = data[at + 3];
        if !(0x80 <= b1 && b1 <= 0xbf && 0x80 <= b2 && b2 <= 0xbf && 0x80 <= b3 && b3 <= 0xbf) {
            return 0;
        }
        let cp = (((b0 & 0x07) as u32) << 18) | (((b1 & 0x3f) as u32) << 12) | (((b2 & 0x3f) as u32)
            << 6) | ((b3 & 0x3f) as u32);
        if cp < 0x10000 || cp > 0x10ffff || (0xD800 <= cp && cp <= 0xDFFF) {
            return 0;
        }
        return 4;
    }
    0
}

/// Whether `data[from..to]` is valid UTF-8.
pub fn utf8_valid(data: &[u8], from: usize, to: usize) -> (r: bool)
    requires
        from <= to <= data@.len(),
    ensures
        r == valid_utf8(data@.subrange(from as int, to as int)),
{
    let mut i: usize = from;
    while i < to
        invariant
            from <= i <= to <= data@.len(),
            valid_utf8(data@.subrange(from as int, to as int)) == valid_utf8(
                data@.subrange(i as int, to as int),
            ),
        decreases to - i,
    {
        let w = first_scalar_len(data, i, to);
        if w == 0 {
            return false;
        }
        assert(pop_first_scalar(data@.subrange(i as int, to as int)) =~= data@.subrange(
            i + w,
            to as int,
        ));
        i = i + w;
    }
    assert(data@.subrange(i as int, to as int).len() == 0);
    true
}

/// Bytes below 0x80 are valid UTF-8.
pub proof fn lemma_ascii_utf8(s: Seq<u8>)
    requires
        forall|i: int| 0 <= i < s.len() ==> s[i] <= 0x7f,
    ensures
        valid_utf8(s),
    decreases s.len(),
{
    if s.len() > 0 {
        let b = s[0];
        assert((b & 0x7f) <= 0x7f) by (bit_vector);
        let rest = s.subrange(1, s.len() as int);
        lemma_ascii_utf8(rest);
        assert(pop_first_scalar(s) =~= rest);
    }
}

} // verus!
