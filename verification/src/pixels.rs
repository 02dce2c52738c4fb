use vstd::prelude::*;

verus! {

/// The concatenation `f(0) + f(1) + ... + f(n - 1)`.
pub open spec fn concat_pixels(n: nat, f: spec_fn(int) -> Seq<u8>) -> Seq<u8>
    decreases n,
{
    if n == 0 {
        Seq::empty()
    } else {
        concat_pixels((n - 1) as nat, f) + f(n - 1)
    }
}

/// The high byte of the little-endian 16-bit value stored as `lo, hi`
/// (`u16::from_le_bytes([lo, hi]) >> 8`).
pub open spec fn le16_high(lo: u8, hi: u8) -> u8 {
    ((hi as int * 256 + lo as int) / 256) as u8
}

pub open spec fn rgb_to_rgba_spec(d: Seq<u8>) -> Seq<u8> {
    concat_pixels((d.len() / 3) as nat, |k: int| seq![d[3 * k], d[3 * k + 1], d[3 * k + 2], 255u8])
}

pub open spec fn rgba16_to_rgba8_spec(d: Seq<u8>) -> Seq<u8> {
    concat_pixels((d.len() / 2) as nat, |k: int| seq![le16_high(d[2 * k], d[2 * k + 1])])
}

pub open spec fn rgb16_to_rgba8_spec(d: Seq<u8>) -> Seq<u8> {
    concat_pixels(
        (d.len() / 6) as nat,
        |k: int|
            seq![
                le16_high(d[6 * k], d[6 * k + 1]),
                le16_high(d[6 * k + 2], d[6 * k + 3]),
                le16_high(d[6 * k + 4], d[6 * k + 5]),
                255u8,
            ],
    )
}

pub open spec fn r8_to_rgba_spec(d: Seq<u8>) -> Seq<u8> {
    concat_pixels(d.len(), |k: int| seq![d[k], d[k], d[k], 255u8])
}

pub open spec fn r16_to_rgba_spec(d: Seq<u8>) -> Seq<u8> {
    concat_pixels(
        (d.len() / 2) as nat,
        |k: int|
            seq![
                le16_high(d[2 * k], d[2 * k + 1]),
                le16_high(d[2 * k], d[2 * k + 1]),
                le16_high(d[2 * k], d[2 * k + 1]),
                255u8,
            ],
    )
}

pub open spec fn rg8_to_rgba_spec(d: Seq<u8>) -> Seq<u8> {
    concat_pixels((d.len() / 2) as nat, |k: int| seq![d[2 * k], d[2 * k + 1], 0u8, 255u8])
}

pub open spec fn rg16_to_rgba_spec(d: Seq<u8>) -> Seq<u8> {
    concat_pixels(
        (d.len() / 4) as nat,
        |k: int|
            seq![
                le16_high(d[4 * k], d[4 * k + 1]),
                le16_high(d[4 * k + 2], d[4 * k + 3]),
                0u8,
                255u8,
            ],
    )
}

proof fn lemma_le16_high(lo: u8, hi: u8)
    ensures
        le16_high(lo, hi) == hi,
{
    assert((hi as int * 256 + lo as int) / 256 == hi as int) by (nonlinear_arith)
        requires
            0 <= lo < 256,
            0 <= hi < 256,
    ;
}

/// The high byte of a little-endian 16-bit value.
fn high_byte(lo: u8, hi: u8) -> (r: u8)
    ensures
        r == le16_high(lo, hi),
{
    proof {
        lemma_le16_high(lo, hi);
    }
    hi
}

/// Packed RGB (8 bits per channel) to RGBA with opaque alpha; a trailing partial pixel is dropped.
pub fn rgb_to_rgba(rgb: &[u8]) -> (out: Vec<u8>)
    ensures
        out@ == rgb_to_rgba_spec(rgb@),
{
    let n = rgb.len() / 3;
    let mut out: Vec<u8> = Vec::new();
    let mut k: usize = 0;
    while k < n
        invariant
            n == rgb@.len() / 3,
            3 * n <= rgb.len(),
            k <= n,
            out@ == concat_pixels(
                k as nat,
                |j: int| seq![rgb@[3 * j], rgb@[3 * j + 1], rgb@[3 * j + 2], 255u8],
            ),
        decreases n - k,
    {
        let b = 3 * k;
        let ghost before = out@;
        out.push(rgb[b]);
        out.push(rgb[b + 1]);
        out.push(rgb[b + 2]);
        out.push(255);
        assert(out@ =~= before + seq![rgb@[3 * k as int], rgb@[3 * k + 1], rgb@[3 * k + 2], 255u8]);
        k = k + 1;
    }
    out
}

/// 16-bit RGBA to 8-bit RGBA: each little-endian channel keeps its high byte.
pub fn rgba16_to_rgba8(data: &[u8]) -> (out: Vec<u8>)
    ensures
        out@ == rgba16_to_rgba8_spec(data@),
{
    let n = data.len() / 2;
    let mut out: Vec<u8> = Vec::new();
    let mut k: usize = 0;
    while k < n
        invariant
            n == data@.len() / 2,
            2 * n <= data.len(),
            k <= n,
            out@ == concat_pixels(k as nat, |j: int| seq![le16_high(data@[2 * j], data@[2 * j + 1])]),
        decreases n - k,
    {
        let b = 2 * k;
        let ghost before = out@;
        out.push(high_byte(data[b], data[b + 1]));
        assert(out@ =~= before + seq![le16_high(data@[2 * k as int], data@[2 * k + 1])]);
        k = k + 1;
    }
    out
}

/// 16-bit RGB to 8-bit RGBA with opaque alpha.
pub fn rgb16_to_rgba8(data: &[u8]) -> (out: Vec<u8>)
    ensures
        out@ == rgb16_to_rgba8_spec(data@),
{
    let n = data.len() / 6;
    let mut out: Vec<u8> = Vec::new();
    let mut k: usize = 0;
    while k < n
        invariant
            n == data@.len() / 6,
            6 * n <= data.len(),
            k <= n,
            out@ == concat_pixels(
                k as nat,
                |j: int|
                    seq![
                        le16_high(data@[6 * j], data@[6 * j + 1]),
                        le16_high(data@[6 * j + 2], data@[6 * j + 3]),
                        le16_high(data@[6 * j + 4], data@[6 * j + 5]),
                        255u8,
                    ],
            ),
        decreases n - k,
    {
        let b = 6 * k;
        let ghost before = out@;
        out.push(high_byte(data[b], data[b + 1]));
        out.push(high_byte(data[b + 2], data[b + 3]));
        out.push(high_byte(data[b + 4], data[b + 5]));
        out.push(255);
        assert(out@ =~= before + seq![
            le16_high(data@[6 * k as int], data@[6 * k + 1]),
            le16_high(data@[6 * k + 2], data@[6 * k + 3]),
            le16_high(data@[6 * k + 4], data@[6 * k + 5]),
            255u8,
        ]);
        k = k + 1;
    }
    out
}

/// 8-bit grey to RGBA with opaque alpha.
pub fn r8_to_rgba(data: &[u8]) -> (out: Vec<u8>)
    ensures
        out@ == r8_to_rgba_spec(data@),
{
    let n = data.len();
    let mut out: Vec<u8> = Vec::new();
    let mut k: usize = 0;
    while k < n
        invariant
            n == data@.len(),
            k <= n,
            out@ == concat_pixels(k as nat, |j: int| seq![data@[j], data@[j], data@[j], 255u8]),
        decreases n - k,
    {
        let v = data[k];
        let ghost before = out@;
        out.push(v);
        out.push(v);
        out.push(v);
        out.push(255);
        assert(out@ =~= before + seq![data@[k as int], data@[k as int], data@[k as int], 255u8]);
        k = k + 1;
    }
    out
}

/// 16-bit grey to RGBA with opaque alpha.
pub fn r16_to_rgba(data: &[u8]) -> (out: Vec<u8>)
    ensures
        out@ == r16_to_rgba_spec(data@),
{
    let n = data.len() / 2;
    let mut out: Vec<u8> = Vec::new();
    let mut k: usize = 0;
    while k < n
        invariant
            n == data@.len() / 2,
            2 * n <= data.len(),
            k <= n,
            out@ == concat_pixels(
                k as nat,
                |j: int|
                    seq![
                        le16_high(data@[2 * j], data@[2 * j + 1]),
                        le16_high(data@[2 * j], data@[2 * j + 1]),
                        le16_high(data@[2 * j], data@[2 * j + 1]),
                        255u8,
                    ],
            ),
        decreases n - k,
    {
        let b = 2 * k;
        let v = high_byte(data[b], data[b + 1]);
        let ghost before = out@;
        out.push(v);
        out.push(v);
        out.push(v);
        out.push(255);
        assert(out@ =~= before + seq![v, v, v, 255u8]);
        k = k + 1;
    }
    out
}

/// Two-channel 8-bit to RGBA: red and green kept, blue zero, alpha opaque.
pub fn rg8_to_rgba(data: &[u8]) -> (out: Vec<u8>)
    ensures
        out@ == rg8_to_rgba_spec(data@),
{
    let n = data.len() / 2;
    let mut out: Vec<u8> = Vec::new();
    let mut k: usize = 0;
    while k < n
        invariant
            n == data@.len() / 2,
            2 * n <= data.len(),
            k <= n,
            out@ == concat_pixels(
                k as nat,
                |j: int| seq![data@[2 * j], data@[2 * j + 1], 0u8, 255u8],
            ),
        decreases n - k,
    {
        let b = 2 * k;
        let ghost before = out@;
        out.push(data[b]);
        out.push(data[b + 1]);
        out.push(0);
        out.push(255);
        assert(out@ =~= before + seq![data@[2 * k as int], data@[2 * k + 1], 0u8, 255u8]);
        k = k + 1;
    }
    out
}

/// Two-channel 16-bit to RGBA: high bytes of red and green, blue zero, alpha opaque.
pub fn rg16_to_rgba(data: &[u8]) -> (out: Vec<u8>)
    ensures
        out@ == rg16_to_rgba_spec(data@),
{
    let n = data.len() / 4;
    let mut out: Vec<u8> = Vec::new();
    let mut k: usize = 0;
    while k < n
        invariant
            n == data@.len() / 4,
            4 * n <= data.len(),
            k <= n,
            out@ == concat_pixels(
                k as nat,
                |j: int|
                    seq![
                        le16_high(data@[4 * j], data@[4 * j + 1]),
                        le16_high(data@[4 * j + 2], data@[4 * j + 3]),
                        0u8,
                        255u8,
                    ],
            ),
        decreases n - k,
    {
        let b = 4 * k;
        let ghost before = out@;
        out.push(high_byte(data[b], data[b + 1]));
        out.push(high_byte(data[b + 2], data[b + 3]));
        out.push(0);
        out.push(255);
        assert(out@ =~= before + seq![
            le16_high(data@[4 * k as int], data@[4 * k + 1]),
            le16_high(data@[4 * k + 2], data@[4 * k + 3]),
            0u8,
            255u8,
        ]);
        k = k + 1;
    }
    out
}

/// Every conversion to RGBA produces four bytes per whole source pixel.
pub proof fn law_rgba_length(d: Seq<u8>)
    ensures
        rgb_to_rgba_spec(d).len() == 4 * (d.len() / 3),
        r8_to_rgba_spec(d).len() == 4 * d.len(),
        r16_to_rgba_spec(d).len() == 4 * (d.len() / 2),
        rg8_to_rgba_spec(d).len() == 4 * (d.len() / 2),
        rg16_to_rgba_spec(d).len() == 4 * (d.len() / 4),
        rgb16_to_rgba8_spec(d).len() == 4 * (d.len() / 6),
        rgba16_to_rgba8_spec(d).len() == d.len() / 2,
{
    lemma_concat_len4((d.len() / 3) as nat, |k: int| seq![d[3 * k], d[3 * k + 1], d[3 * k + 2], 255u8]);
    lemma_concat_len4(d.len(), |k: int| seq![d[k], d[k], d[k], 255u8]);
    lemma_concat_len4(
        (d.len() / 2) as nat,
        |k: int|
            seq![
                le16_high(d[2 * k], d[2 * k + 1]),
                le16_high(d[2 * k], d[2 * k + 1]),
                le16_high(d[2 * k], d[2 * k + 1]),
                255u8,
            ],
    );
    lemma_concat_len4((d.len() / 2) as nat, |k: int| seq![d[2 * k], d[2 * k + 1], 0u8, 255u8]);
    lemma_concat_len4(
        (d.len() / 4) as nat,
        |k: int|
            seq![
                le16_high(d[4 * k], d[4 * k + 1]),
                le16_high(d[4 * k + 2], d[4 * k + 3]),
                0u8,
                255u8,
            ],
    );
    lemma_concat_len4(
        (d.len() / 6) as nat,
        |k: int|
            seq![
                le16_high(d[6 * k], d[6 * k + 1]),
                le16_high(d[6 * k + 2], d[6 * k + 3]),
                le16_high(d[6 * k + 4], d[6 * k + 5]),
                255u8,
            ],
    );
    lemma_concat_len1((d.len() / 2) as nat, |k: int| seq![le16_high(d[2 * k], d[2 * k + 1])]);
}

proof fn lemma_concat_len4(n: nat, f: spec_fn(int) -> Seq<u8>)
    requires
        forall|k: int| 0 <= k < n ==> #[trigger] f(k).len() == 4,
    ensures
        concat_pixels(n, f).len() == 4 * n,
    decreases n,
{
    if n > 0 {
        lemma_concat_len4((n - 1) as nat, f);
        assert(f(n - 1).len() == 4);
    }
}

proof fn lemma_concat_len1(n: nat, f: spec_fn(int) -> Seq<u8>)
    requires
        forall|k: int| 0 <= k < n ==> #[trigger] f(k).len() == 1,
    ensures
        concat_pixels(n, f).len() == n,
    decreases n,
{
    if n > 0 {
        lemma_concat_len1((n - 1) as nat, f);
        assert(f(n - 1).len() == 1);
    }
}

} // verus!
