//! The binary portable pixmap encoding: an ASCII header — the tag "P6", a
//! newline, the decimal width, a space, the decimal height, a newline,
//! "255", a newline — followed by the raw pixel bytes. A decoder
//! specification is proved to invert the encoding.

use vstd::prelude::*;

use crate::canvas::PPM;

verus! {

/// The ASCII decimal digits of `n`, most significant first, no sign and no
/// leading zeros (a single "0" for zero).
pub open spec fn dec_rep(n: nat) -> Seq<u8>
    decreases n,
{
    if n < 10 {
        seq![(n + 48) as u8]
    } else {
        dec_rep(n / 10).push((n % 10 + 48) as u8)
    }
}

/// The number denoted by a sequence of ASCII decimal digits.
pub open spec fn dec_val(s: Seq<u8>) -> nat
    decreases s.len(),
{
    if s.len() == 0 {
        0
    } else {
        (dec_val(s.drop_last()) * 10 + (s.last() - 48)) as nat
    }
}

/// Is `b` an ASCII decimal digit?
pub open spec fn is_digit(b: u8) -> bool {
    48 <= b <= 57
}

/// Does `s` consist of ASCII decimal digits only?
pub open spec fn all_digits(s: Seq<u8>) -> bool {
    forall|k: int| 0 <= k < s.len() ==> is_digit(#[trigger] s[k])
}

/// The header for a canvas of the given dimensions.
pub open spec fn header_bytes(width: nat, height: nat) -> Seq<u8> {
    seq![80u8, 54u8, 10u8] + dec_rep(width) + seq![32u8] + dec_rep(height) + seq![
        10u8,
        50u8,
        53u8,
        53u8,
        10u8,
    ]
}

/// The whole file: the header followed by the raw row-major pixel bytes.
pub open spec fn ppm_bytes(width: nat, height: nat, image: Seq<u8>) -> Seq<u8> {
    header_bytes(width, height) + image
}

/// Index of the first occurrence of `v` in `s` at or after `from`; -1 when
/// there is none.
pub open spec fn find_byte(s: Seq<u8>, from: int, v: u8) -> int
    decreases s.len() - from,
{
    if from < 0 || from >= s.len() {
        -1
    } else if s[from] == v {
        from
    } else {
        find_byte(s, from + 1, v)
    }
}

/// The decoder: accept exactly the files of the header shape above whose
/// pixel data is three bytes per pixel, and give back the dimensions and
/// the pixel bytes.
pub open spec fn decode_spec(b: Seq<u8>) -> Option<(nat, nat, Seq<u8>)> {
    let isp = find_byte(b, 3, 32);
    let inl = find_byte(b, isp + 1, 10);
    let wd = b.subrange(3, isp);
    let hd = b.subrange(isp + 1, inl);
    if b.len() >= 3 && b[0] == 80 && b[1] == 54 && b[2] == 10 && isp >= 4 && inl >= isp + 2 && inl
        + 5 <= b.len() && all_digits(wd) && all_digits(hd) && b[inl + 1] == 50 && b[inl + 2] == 53
        && b[inl + 3] == 53 && b[inl + 4] == 10 && b.len() - (inl + 5) == dec_val(wd) * dec_val(hd)
        * 3 {
        Some((dec_val(wd), dec_val(hd), b.subrange(inl + 5, b.len() as int)))
    } else {
        None
    }
}

/// Decimal digit sequences are non-empty and hold digits only.
proof fn lemma_dec_rep_digits(n: nat)
    ensures
        dec_rep(n).len() >= 1,
        all_digits(dec_rep(n)),
    decreases n,
{
    if n < 10 {
    } else {
        lemma_dec_rep_digits(n / 10);
        assert forall|k: int| 0 <= k < dec_rep(n).len() implies is_digit(#[trigger] dec_rep(n)[k]) by {
            if k < dec_rep(n).len() - 1 {
                assert(dec_rep(n)[k] == dec_rep(n / 10)[k]);
            }
        }
    }
}

/// Reading the digits of a number back gives the number.
proof fn lemma_dec_val_of_rep(n: nat)
    ensures
        dec_val(dec_rep(n)) == n,
    decreases n,
{
    let s = dec_rep(n);
    if n < 10 {
        assert(s == seq![(n + 48) as u8]);
        assert(s.len() == 1);
        assert(s.last() == (n + 48) as u8);
        assert(s.drop_last() =~= Seq::<u8>::empty());
        assert(dec_val(s.drop_last()) == 0);
        assert(dec_val(s) == (0 * 10 + ((n + 48) as u8 - 48)) as nat);
    } else {
        lemma_dec_val_of_rep(n / 10);
        assert(s == dec_rep(n / 10).push((n % 10 + 48) as u8));
        assert(s.len() == dec_rep(n / 10).len() + 1);
        assert(s.last() == (n % 10 + 48) as u8);
        assert(s.drop_last() =~= dec_rep(n / 10));
        assert(dec_val(s) == (dec_val(s.drop_last()) * 10 + (s.last() - 48)) as nat);
        assert(n == (n / 10) * 10 + n % 10) by (nonlinear_arith);
    }
}

/// `find_byte` finds the position of the first occurrence.
proof fn lemma_find_byte(s: Seq<u8>, from: int, v: u8, p: int)
    requires
        0 <= from <= p < s.len(),
        s[p] == v,
        forall|j: int| from <= j < p ==> #[trigger] s[j] != v,
    ensures
        find_byte(s, from, v) == p,
    decreases p - from,
{
    if from < p {
        lemma_find_byte(s, from + 1, v, p);
    }
}

/// Round trip: decoding a serialized canvas gives back exactly its
/// dimensions and its pixel bytes.
pub proof fn lemma_round_trip(width: nat, height: nat, image: Seq<u8>)
    requires
        image.len() == width * height * 3,
    ensures
        decode_spec(ppm_bytes(width, height, image)) == Some((width, height, image)),
{
    let b = ppm_bytes(width, height, image);
    let wd = dec_rep(width);
    let hd = dec_rep(height);
    lemma_dec_rep_digits(width);
    lemma_dec_rep_digits(height);
    lemma_dec_val_of_rep(width);
    lemma_dec_val_of_rep(height);
    let isp = 3 + wd.len() as int;
    let inl = isp + 1 + hd.len() as int;
    assert(b.len() == inl + 5 + image.len());
    assert(b[isp] == 32);
    assert forall|j: int| 3 <= j < isp implies #[trigger] b[j] != 32 by {
        assert(b[j] == wd[j - 3]);
        assert(is_digit(wd[j - 3]));
    }
    assert(b[0] != 32 && b[1] != 32 && b[2] != 32);
    lemma_find_byte(b, 3, 32, isp);
    assert(b[inl] == 10);
    assert forall|j: int| isp + 1 <= j < inl implies #[trigger] b[j] != 10 by {
        assert(b[j] == hd[j - (isp + 1)]);
        assert(is_digit(hd[j - (isp + 1)]));
    }
    lemma_find_byte(b, isp + 1, 10, inl);
    assert(b.subrange(3, isp) =~= wd);
    assert(b.subrange(isp + 1, inl) =~= hd);
    assert(b[0] == 80 && b[1] == 54 && b[2] == 10);
    assert(b[inl + 1] == 50 && b[inl + 2] == 53 && b[inl + 3] == 53 && b[inl + 4] == 10);
    assert(b.subrange(inl + 5, b.len() as int) =~= image);
}

/// Append the decimal digits of `n`.
fn push_dec(out: &mut Vec<u8>, n: usize)
    ensures
        final(out)@ == old(out)@ + dec_rep(n as nat),
    decreases n,
{
    if n < 10 {
        out.push((n as u8) + 48);
        assert(final(out)@ =~= old(out)@ + dec_rep(n as nat));
    } else {
        push_dec(out, n / 10);
        out.push((n % 10) as u8 + 48);
        assert(final(out)@ =~= old(out)@ + dec_rep(n as nat)) by {
            assert(dec_rep(n as nat) == dec_rep((n as nat) / 10).push(
                ((n as nat) % 10 + 48) as u8,
            ));
        }
    }
}

impl PPM {
    /// Serialize the canvas: the header, then the raw pixel bytes, nothing
    /// else.
    pub fn to_bytes(&self) -> (r: Vec<u8>)
        ensures
            r@ == ppm_bytes(self.width as nat, self.height as nat, self.image@),
    {
        let ghost wd = dec_rep(self.width as nat);
        let ghost hd = dec_rep(self.height as nat);
        let mut out: Vec<u8> = Vec::new();
        out.push(80);
        out.push(54);
        out.push(10);
        assert(out@ =~= seq![80u8, 54u8, 10u8]);
        push_dec(&mut out, self.width);
        out.push(32);
        assert(out@ =~= seq![80u8, 54u8, 10u8] + wd + seq![32u8]);
        push_dec(&mut out, self.height);
        out.push(10);
        out.push(50);
        out.push(53);
        out.push(53);
        out.push(10);
        assert(out@ =~= header_bytes(self.width as nat, self.height as nat));
        let ghost hdr = out@;
        let mut k: usize = 0;
        while k < self.image.len()
            invariant
                k <= self.image.len(),
                out@ == hdr + self.image@.take(k as int),
            decreases self.image.len() - k,
        {
            out.push(self.image[k]);
            assert(out@ =~= hdr + self.image@.take(k as int + 1));
            k = k + 1;
        }
        assert(out@ =~= ppm_bytes(self.width as nat, self.height as nat, self.image@));
        out
    }
}


/// With digits only, every prefix denotes at most the whole number.
proof fn lemma_dec_val_prefix(s: Seq<u8>, k: int)
    requires
        all_digits(s),
        0 <= k <= s.len(),
    ensures
        dec_val(s.take(k)) <= dec_val(s),
    decreases s.len() - k,
{
    if k == s.len() {
        assert(s.take(k) =~= s);
    } else {
        lemma_dec_val_prefix(s, k + 1);
        assert(s.take(k + 1).drop_last() =~= s.take(k));
        assert(s.take(k + 1).last() == s[k]);
        assert(is_digit(s[k]));
        assert(dec_val(s.take(k + 1)) == dec_val(s.take(k)) * 10 + (s[k] - 48));
    }
}

/// `find_byte` reports -1 when the byte does not occur at or after `from`.
proof fn lemma_find_byte_none(s: Seq<u8>, from: int, v: u8)
    requires
        0 <= from,
        forall|j: int| from <= j < s.len() ==> #[trigger] s[j] != v,
    ensures
        find_byte(s, from, v) == -1,
    decreases s.len() - from,
{
    if from < s.len() {
        lemma_find_byte_none(s, from + 1, v);
    }
}

/// Parse the decimal digits in `bytes[from..to]`; `None` exactly when the
/// value exceeds the machine word.
#[verifier::loop_isolation(false)]
fn parse_dec(bytes: &Vec<u8>, from: usize, to: usize) -> (r: Option<usize>)
    requires
        from <= to <= bytes@.len(),
        all_digits(bytes@.subrange(from as int, to as int)),
    ensures
        ({
            let digits = bytes@.subrange(from as int, to as int);
            match r {
                Some(v) => v == dec_val(digits),
                None => dec_val(digits) > usize::MAX,
            }
        }),
{
    let ghost digits = bytes@.subrange(from as int, to as int);
    let mut val: usize = 0;
    let mut k: usize = from;
    assert(digits.take(0) =~= Seq::<u8>::empty());
    while k < to
        invariant
            from <= k <= to,
            val == dec_val(digits.take(k - from)),
        decreases to - k,
    {
        let d = bytes[k];
        proof {
            assert(digits[k - from] == d);
            assert(is_digit(d));
        }
        let dv = d - 48;
        proof {
            assert(digits.take(k - from + 1).drop_last() =~= digits.take(k - from));
            assert(digits.take(k - from + 1).last() == d);
            assert(dec_val(digits.take(k - from + 1)) == dec_val(digits.take(k - from)) * 10 + dv);
            vstd::arithmetic::div_mod::lemma_fundamental_div_mod(usize::MAX - dv, 10);
            vstd::arithmetic::div_mod::lemma_mod_bound(usize::MAX - dv, 10);
        }
        if val > (usize::MAX - dv as usize) / 10 {
            proof {
                lemma_dec_val_prefix(digits, k - from + 1);
            }
            return None;
        }
        val = val * 10 + dv as usize;
        k = k + 1;
    }
    assert(digits.take(to - from) =~= digits);
    Some(val)
}

impl PPM {
    /// Decode a file of the exact shape `to_bytes` writes: the inverse of
    /// serialization. `None` when the bytes are not such a file, or when a
    /// decoded dimension does not fit the machine word.
    #[verifier::loop_isolation(false)]
    pub fn from_bytes(bytes: &Vec<u8>) -> (r: Option<PPM>)
        ensures
            r matches Some(c) ==> c.wf() && decode_spec(bytes@) == Some(
                (c.width as nat, c.height as nat, c.image@),
            ),
            r is None ==> (decode_spec(bytes@) is None || (decode_spec(bytes@) matches Some(
                (w, h, img),
            ) && (w > usize::MAX || h > usize::MAX))),
    {
        let n = bytes.len();
        if n < 3 {
            return None;
        }
        if bytes[0] != 80 || bytes[1] != 54 || bytes[2] != 10 {
            return None;
        }
        let mut i: usize = 3;
        while i < n && bytes[i] != 32
            invariant
                3 <= i <= n,
                forall|j: int| 3 <= j < i ==> bytes@[j] != 32,
            decreases n - i,
        {
            i = i + 1;
        }
        if i == n {
            proof {
                lemma_find_byte_none(bytes@, 3, 32);
            }
            return None;
        }
        proof {
            lemma_find_byte(bytes@, 3, 32, i as int);
        }
        if i < 4 {
            return None;
        }
        let mut k: usize = 3;
        while k < i
            invariant
                3 <= k <= i,
                forall|j: int| 3 <= j < k ==> is_digit(bytes@[j]),
            decreases i - k,
        {
            let d = bytes[k];
            if d < 48 || d > 57 {
                proof {
                    assert(bytes@.subrange(3, i as int)[k - 3] == d);
                    assert(!all_digits(bytes@.subrange(3, i as int)));
                }
                return None;
            }
            k = k + 1;
        }
        let ghost wd = bytes@.subrange(3, i as int);
        proof {
            assert forall|q: int| 0 <= q < wd.len() implies is_digit(#[trigger] wd[q]) by {
                assert(wd[q] == bytes@[q + 3]);
            }
        }
        let mut j: usize = i + 1;
        while j < n && bytes[j] != 10
            invariant
                i + 1 <= j <= n,
                forall|q: int| i + 1 <= q < j ==> bytes@[q] != 10,
            decreases n - j,
        {
            j = j + 1;
        }
        if j == n {
            proof {
                lemma_find_byte_none(bytes@, i as int + 1, 10);
            }
            return None;
        }
        proof {
            lemma_find_byte(bytes@, i as int + 1, 10, j as int);
        }
        if j < i + 2 {
            return None;
        }
        let mut k2: usize = i + 1;
        while k2 < j
            invariant
                i + 1 <= k2 <= j,
                forall|q: int| i + 1 <= q < k2 ==> is_digit(bytes@[q]),
            decreases j - k2,
        {
            let d = bytes[k2];
            if d < 48 || d > 57 {
                proof {
                    assert(bytes@.subrange(i as int + 1, j as int)[k2 - (i + 1)] == d);
                    assert(!all_digits(bytes@.subrange(i as int + 1, j as int)));
                }
                return None;
            }
            k2 = k2 + 1;
        }
        let ghost hd = bytes@.subrange(i as int + 1, j as int);
        proof {
            assert forall|q: int| 0 <= q < hd.len() implies is_digit(#[trigger] hd[q]) by {
                assert(hd[q] == bytes@[q + i + 1]);
            }
        }
        if n - (j + 1) < 4 {
            return None;
        }
        if bytes[j + 1] != 50 || bytes[j + 2] != 53 || bytes[j + 3] != 53 || bytes[j + 4] != 10 {
            return None;
        }
        let w = match parse_dec(bytes, 3, i) {
            Some(v) => v,
            None => {
                return None;
            },
        };
        let h = match parse_dec(bytes, i + 1, j) {
            Some(v) => v,
            None => {
                return None;
            },
        };
        let data_len = n - (j + 5);
        let m = match w.checked_mul(h) {
            Some(p) => match p.checked_mul(3) {
                Some(m) => m,
                None => {
                    return None;
                },
            },
            None => {
                proof {
                    assert(w * h <= w * h * 3) by (nonlinear_arith);
                }
                return None;
            },
        };
        if data_len != m {
            return None;
        }
        let mut image: Vec<u8> = Vec::new();
        let mut k3: usize = j + 5;
        assert(image@ =~= bytes@.subrange(j as int + 5, j as int + 5));
        while k3 < n
            invariant
                j + 5 <= k3 <= n,
                image@ == bytes@.subrange(j as int + 5, k3 as int),
            decreases n - k3,
        {
            image.push(bytes[k3]);
            proof {
                assert(image@ =~= bytes@.subrange(j as int + 5, k3 as int + 1));
            }
            k3 = k3 + 1;
        }
        let c = PPM { width: w, height: h, image };
        proof {
            assert(decode_spec(bytes@) == Some((w as nat, h as nat, c.image@)));
        }
        Some(c)
    }
}

} // verus!
