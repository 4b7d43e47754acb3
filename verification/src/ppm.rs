//! Serialization of a packed pixel buffer to the raw binary image
//! container, and a matching parser.
//!
//! The byte layout is an ASCII header — the two magic bytes `P6`, a
//! newline, the decimal width, a space, the decimal height, a space, the
//! literal `255` and a newline — followed by three raw bytes per pixel in
//! row-major order: the high, middle and low byte of each packed color.

use vstd::prelude::*;

verus! {

/// The ASCII decimal digits of `n`, most significant first.
pub open spec fn dec_digits(n: int) -> Seq<u8>
    recommends
        n >= 0,
    decreases n,
{
    if n < 10 {
        seq![(48 + if n >= 0 { n } else { 0 }) as u8]
    } else {
        dec_digits(n / 10).push((48 + n % 10) as u8)
    }
}

/// Whether `b` is an ASCII decimal digit.
pub open spec fn is_digit(b: u8) -> bool {
    48 <= b <= 57
}

/// The number denoted by a sequence of ASCII digits, most significant
/// first; an empty sequence denotes zero.
pub open spec fn digits_value(d: Seq<u8>) -> int
    decreases d.len(),
{
    if d.len() == 0 {
        0
    } else {
        digits_value(d.drop_last()) * 10 + (d.last() - 48)
    }
}

/// The header bytes for a `width` by `height` image.
pub open spec fn ppm_header(width: int, height: int) -> Seq<u8> {
    seq![80u8, 54u8, 10u8] + dec_digits(width) + seq![32u8] + dec_digits(height) + seq![
        32u8,
        50u8,
        53u8,
        53u8,
        10u8,
    ]
}

/// Channel `t` (0 high, 1 middle, 2 low) of the packed color `px`.
pub open spec fn channel(px: u32, t: int) -> u8 {
    if t == 0 {
        ((px >> 16) & 0xff) as u8
    } else if t == 1 {
        ((px >> 8) & 0xff) as u8
    } else {
        (px & 0xff) as u8
    }
}

/// The raw pixel bytes: three channel bytes for each packed color, in
/// order.
pub open spec fn ppm_body(pixels: Seq<u32>) -> Seq<u8> {
    Seq::new(3 * pixels.len(), |i: int| channel(pixels[i / 3], i % 3))
}

/// The full byte image: header, then raw pixel bytes.
pub open spec fn ppm_bytes(pixels: Seq<u32>, width: int, height: int) -> Seq<u8> {
    ppm_header(width, height) + ppm_body(pixels)
}

/// The digits of a number are ASCII digits, and there is at least one.
pub proof fn lemma_dec_digits_are_digits(n: int)
    requires
        n >= 0,
    ensures
        dec_digits(n).len() >= 1,
        forall|i: int| 0 <= i < dec_digits(n).len() ==> is_digit(#[trigger] dec_digits(n)[i]),
    decreases n,
{
    if n >= 10 {
        lemma_dec_digits_are_digits(n / 10);
        assert forall|i: int| 0 <= i < dec_digits(n).len() implies is_digit(
            #[trigger] dec_digits(n)[i],
        ) by {
            if i < dec_digits(n / 10).len() {
                assert(dec_digits(n)[i] == dec_digits(n / 10)[i]);
            }
        }
    }
}

/// Reading the digits of `n` back as a number gives `n`.
pub proof fn lemma_digits_value_of_dec(n: int)
    requires
        n >= 0,
    ensures
        digits_value(dec_digits(n)) == n,
    decreases n,
{
    if n < 10 {
        assert(dec_digits(n).drop_last() =~= Seq::<u8>::empty());
        assert(digits_value(Seq::<u8>::empty()) == 0);
        assert(dec_digits(n).last() == (48 + n) as u8);
        assert(digits_value(dec_digits(n)) == 0 * 10 + ((48 + n) as u8 - 48));
    } else {
        lemma_digits_value_of_dec(n / 10);
        assert(dec_digits(n).drop_last() =~= dec_digits(n / 10));
        assert(dec_digits(n).last() == (48 + n % 10) as u8);
        assert(digits_value(dec_digits(n)) == (n / 10) * 10 + ((48 + n % 10) as u8 - 48));
    }
}

/// The value denoted by a digit string is never negative.
pub proof fn lemma_digits_value_nonneg(d: Seq<u8>)
    requires
        forall|i: int| 0 <= i < d.len() ==> is_digit(#[trigger] d[i]),
    ensures
        digits_value(d) >= 0,
    decreases d.len(),
{
    if d.len() > 0 {
        lemma_digits_value_nonneg(d.drop_last());
    }
}

/// Appending one digit multiplies the value by ten and adds the digit.
pub proof fn lemma_digits_value_step(s: Seq<u8>, i: int, m: int)
    requires
        0 <= i <= m < s.len(),
    ensures
        digits_value(s.subrange(i, m + 1)) == digits_value(s.subrange(i, m)) * 10 + (s[m] - 48),
{
    assert(s.subrange(i, m + 1).drop_last() =~= s.subrange(i, m));
    assert(s.subrange(i, m + 1).last() == s[m]);
}

/// The first position at or after `i` that does not hold an ASCII digit.
pub open spec fn digit_run_end(s: Seq<u8>, i: int) -> int
    decreases s.len() - i,
{
    if i < 0 || i >= s.len() || !is_digit(s[i]) {
        i
    } else {
        digit_run_end(s, i + 1)
    }
}

/// A run of `k` digits starting at `i`, followed by the sequence's end or
/// by a non-digit, ends exactly at `i + k`.
pub proof fn lemma_digit_run(s: Seq<u8>, i: int, k: int)
    requires
        0 <= i,
        0 <= k,
        i + k <= s.len(),
        forall|m: int| i <= m < i + k ==> is_digit(#[trigger] s[m]),
        i + k == s.len() || !is_digit(s[i + k]),
    ensures
        digit_run_end(s, i) == i + k,
    decreases k,
{
    if k > 0 {
        lemma_digit_run(s, i + 1, k - 1);
    }
}

/// The parse of a serialized image: `None` unless the bytes are exactly a
/// header followed by the advertised number of raw pixel bytes; otherwise
/// the width, the height and those raw bytes.
pub open spec fn spec_decode(s: Seq<u8>) -> Option<(int, int, Seq<u8>)> {
    if s.len() < 3 || s[0] != 80 || s[1] != 54 || s[2] != 10 {
        None
    } else {
        let i = digit_run_end(s, 3);
        if i == 3 || i >= s.len() || s[i] != 32 {
            None
        } else {
            let w = digits_value(s.subrange(3, i));
            let j = digit_run_end(s, i + 1);
            if j == i + 1 || j + 5 > s.len() || s[j] != 32 || s[j + 1] != 50 || s[j + 2] != 53
                || s[j + 3] != 53 || s[j + 4] != 10 {
                None
            } else {
                let h = digits_value(s.subrange(i + 1, j));
                if s.len() - (j + 5) == 3 * (w * h) {
                    Some((w, h, s.subrange(j + 5, s.len() as int)))
                } else {
                    None
                }
            }
        }
    }
}

/// Parsing a serialized image recovers the width, the height and the exact
/// raw pixel bytes it was built from.
pub proof fn lemma_ppm_round_trip(pixels: Seq<u32>, width: int, height: int)
    requires
        width >= 0,
        height >= 0,
        pixels.len() == width * height,
    ensures
        spec_decode(ppm_bytes(pixels, width, height)) == Some(
            (width, height, ppm_body(pixels)),
        ),
{
    let s = ppm_bytes(pixels, width, height);
    let dw = dec_digits(width);
    let dh = dec_digits(height);
    lemma_dec_digits_are_digits(width);
    lemma_dec_digits_are_digits(height);
    lemma_digits_value_of_dec(width);
    lemma_digits_value_of_dec(height);
    let i = 3 + dw.len() as int;
    let j = i + 1 + dh.len() as int;
    assert(s.len() == j + 5 + 3 * pixels.len());
    assert(s[0] == 80 && s[1] == 54 && s[2] == 10);
    assert(forall|m: int| 3 <= m < i ==> s[m] == dw[m - 3]);
    assert(s[i] == 32);
    lemma_digit_run(s, 3, dw.len() as int);
    assert(digit_run_end(s, 3) == i);
    assert(s.subrange(3, i) =~= dw);
    assert(forall|m: int| i + 1 <= m < j ==> s[m] == dh[m - (i + 1)]);
    assert(s[j] == 32);
    lemma_digit_run(s, i + 1, dh.len() as int);
    assert(digit_run_end(s, i + 1) == j);
    assert(s.subrange(i + 1, j) =~= dh);
    assert(s[j + 1] == 50 && s[j + 2] == 53 && s[j + 3] == 53 && s[j + 4] == 10);
    assert(s.len() - (j + 5) == 3 * (width * height));
    assert(s.subrange(j + 5, s.len() as int) =~= ppm_body(pixels));
}

/// Append the ASCII decimal digits of `n`.
fn push_decimal(buf: &mut Vec<u8>, n: usize)
    ensures
        final(buf)@ == old(buf)@ + dec_digits(n as int),
    decreases n,
{
    if n >= 10 {
        push_decimal(buf, n / 10);
    }
    buf.push(48 + (n % 10) as u8);
    proof {
        assert(buf@ =~= old(buf)@ + dec_digits(n as int));
    }
}

/// Serialize the packed pixel buffer of a `width` by `height` image:
/// the header, then the high, middle and low byte of each pixel in order.
pub fn encode_ppm(pixels: &Vec<u32>, width: usize, height: usize) -> (r: Vec<u8>)
    requires
        pixels@.len() == width * height,
    ensures
        r@ == ppm_bytes(pixels@, width as int, height as int),
{
    let mut buffer: Vec<u8> = Vec::new();
    buffer.push(80);
    buffer.push(54);
    buffer.push(10);
    push_decimal(&mut buffer, width);
    buffer.push(32);
    push_decimal(&mut buffer, height);
    buffer.push(32);
    buffer.push(50);
    buffer.push(53);
    buffer.push(53);
    buffer.push(10);
    proof {
        assert(buffer@ =~= ppm_header(width as int, height as int));
    }
    let ghost header = buffer@;
    let count = pixels.len();
    let mut j: usize = 0;
    while j < count
        invariant
            count == pixels@.len(),
            j <= count,
            header == ppm_header(width as int, height as int),
            buffer@ == header + Seq::new((3 * j) as nat, |i: int| channel(pixels@[i / 3], i % 3)),
        decreases count - j,
    {
        let px = pixels[j];
        buffer.push(((px >> 16) & 0xff) as u8);
        buffer.push(((px >> 8) & 0xff) as u8);
        buffer.push((px & 0xff) as u8);
        proof {
            assert(buffer@ =~= header + Seq::new(
                (3 * (j + 1)) as nat,
                |i: int| channel(pixels@[i / 3], i % 3),
            ));
        }
        j = j + 1;
    }
    proof {
        assert(buffer@ =~= ppm_bytes(pixels@, width as int, height as int));
    }
    buffer
}

/// Scan the digit run starting at `start`: its end, and the number it
/// denotes, or `None` when that number does not fit in a machine word.
fn scan_number(bytes: &Vec<u8>, start: usize) -> (res: (usize, Option<usize>))
    requires
        start <= bytes@.len(),
    ensures
        res.0 == digit_run_end(bytes@, start as int),
        start <= res.0 <= bytes@.len(),
        forall|q: int| start <= q < res.0 ==> is_digit(#[trigger] bytes@[q]),
        res.1 matches Some(v) ==> v == digits_value(
            bytes@.subrange(start as int, res.0 as int),
        ),
        res.1 is None ==> digits_value(bytes@.subrange(start as int, res.0 as int)) > usize::MAX,
{
    let mut m = start;
    let mut acc: usize = 0;
    let mut ok = true;
    while m < bytes.len() && bytes[m] >= 48 && bytes[m] <= 57
        invariant
            start <= m <= bytes@.len(),
            forall|q: int| start <= q < m ==> is_digit(#[trigger] bytes@[q]),
            ok ==> acc == digits_value(bytes@.subrange(start as int, m as int)),
            !ok ==> digits_value(bytes@.subrange(start as int, m as int)) > usize::MAX,
        decreases bytes@.len() - m,
    {
        let d = bytes[m] - 48;
        proof {
            lemma_digits_value_step(bytes@, start as int, m as int);
        }
        if ok {
            if acc <= (usize::MAX - d as usize) / 10 {
                acc = acc * 10 + d as usize;
            } else {
                ok = false;
            }
        }
        m = m + 1;
    }
    proof {
        lemma_digit_run(bytes@, start as int, m - start);
    }
    (m, if ok { Some(acc) } else { None })
}

/// Parse a serialized image: the width, the height and the raw pixel
/// bytes, or `None` when the bytes are not exactly a header followed by
/// the advertised number of raw bytes, or when a dimension does not fit in
/// a machine word.
pub fn decode_ppm(bytes: &Vec<u8>) -> (r: Option<(usize, usize, Vec<u8>)>)
    ensures
        spec_decode(bytes@) is None ==> r is None,
        spec_decode(bytes@) matches Some(t) ==> ((t.0 <= usize::MAX && t.1 <= usize::MAX) ==> (r
            matches Some(u) && u.0 == t.0 && u.1 == t.1 && u.2@ == t.2)),
        r matches Some(u) ==> spec_decode(bytes@) == Some((u.0 as int, u.1 as int, u.2@)),
{
    if bytes.len() < 3 {
        return None;
    }
    if bytes[0] != 80 || bytes[1] != 54 || bytes[2] != 10 {
        return None;
    }
    let (i, wv) = scan_number(bytes, 3);
    if i == 3 || i >= bytes.len() {
        return None;
    }
    if bytes[i] != 32 {
        return None;
    }
    let (j, hv) = scan_number(bytes, i + 1);
    if j == i + 1 || bytes.len() - j < 5 {
        return None;
    }
    if bytes[j] != 32 || bytes[j + 1] != 50 || bytes[j + 2] != 53 || bytes[j + 3] != 53 || bytes[j
        + 4] != 10 {
        return None;
    }
    proof {
        assert forall|q: int| 0 <= q < bytes@.subrange(3, i as int).len() implies is_digit(
            #[trigger] bytes@.subrange(3, i as int)[q],
        ) by {
            assert(bytes@.subrange(3, i as int)[q] == bytes@[3 + q]);
        }
        assert forall|q: int|
            0 <= q < bytes@.subrange(i as int + 1, j as int).len() implies is_digit(
            #[trigger] bytes@.subrange(i as int + 1, j as int)[q],
        ) by {
            assert(bytes@.subrange(i as int + 1, j as int)[q] == bytes@[i as int + 1 + q]);
        }
        lemma_digits_value_nonneg(bytes@.subrange(3, i as int));
        lemma_digits_value_nonneg(bytes@.subrange(i as int + 1, j as int));
    }
    let w = match wv {
        Some(w) => w,
        None => {
            return None;
        },
    };
    let h = match hv {
        Some(h) => h,
        None => {
            return None;
        },
    };
    let remaining = bytes.len() - (j + 5);
    let wh = match w.checked_mul(h) {
        Some(x) => x,
        None => {
            return None;
        },
    };
    let body_len = match wh.checked_mul(3) {
        Some(x) => x,
        None => {
            return None;
        },
    };
    if remaining != body_len {
        return None;
    }
    let mut out: Vec<u8> = Vec::new();
    let mut p = j + 5;
    while p < bytes.len()
        invariant
            j + 5 <= p <= bytes@.len(),
            out@ == bytes@.subrange(j as int + 5, p as int),
        decreases bytes@.len() - p,
    {
        out.push(bytes[p]);
        proof {
            assert(out@ =~= bytes@.subrange(j as int + 5, p as int + 1));
        }
        p = p + 1;
    }
    proof {
        assert(out@ =~= bytes@.subrange(j as int + 5, bytes@.len() as int));
    }
    Some((w, h, out))
}

} // verus!
