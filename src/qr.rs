//! Packing a QR code's module grid into bytes.
use vstd::prelude::*;
use qrcodegen::{QrCode, QrCodeEcc};

verus! {

#[verifier::external_type_specification]
#[verifier::external_body]
pub struct ExQrCode(QrCode);

/// Relies on `QrCode::size`: documented to lie in `[21, 177]`; it is
/// `4 * version + 17`, so it leaves 1 modulo 4.
pub assume_specification[ QrCode::size ](q: &QrCode) -> (r: i32)
    ensures
        21 <= r <= 177,
        r % 4 == 1,
;

/// Relies on `QrCode::get_module`: the colour of the module at `(x, y)`.
pub assume_specification[ QrCode::get_module ](q: &QrCode, x: i32, y: i32) -> (r: bool);

/// Error-correction level of a QR code.
#[derive(PartialEq, Eq, Structural, Clone, Copy, Debug)]
pub enum EccLevel {
    Low,
    Medium,
    Quartile,
    High,
}

/// Relies on `qrcodegen::QrCode::encode_binary`: encodes `data` at the
/// smallest version that fits; `None` when the data exceeds the capacity,
/// which is documented to be at most 2953 bytes.
#[verifier::external_body]
fn encode_binary(data: &[u8], ecc: EccLevel) -> (r: Option<QrCode>)
    ensures
        data@.len() > 2953 ==> r is None,
{
    let ecl = match ecc {
        EccLevel::Low => QrCodeEcc::Low,
        EccLevel::Medium => QrCodeEcc::Medium,
        EccLevel::Quartile => QrCodeEcc::Quartile,
        EccLevel::High => QrCodeEcc::High,
    };
    match QrCode::encode_binary(data, ecl) {
        Ok(q) => Some(q),
        Err(_) => None,
    }
}

/// The level for a numeric code: 0 Low, 1 Medium, 2 Quartile, anything else High.
pub fn ecc_from_level(level: u8) -> (r: EccLevel)
    ensures
        level == 0 ==> r == EccLevel::Low,
        level == 1 ==> r == EccLevel::Medium,
        level == 2 ==> r == EccLevel::Quartile,
        level > 2 ==> r == EccLevel::High,
{
    match level {
        0 => EccLevel::Low,
        1 => EccLevel::Medium,
        2 => EccLevel::Quartile,
        _ => EccLevel::High,
    }
}

/// The four little-endian bytes of `x`.
pub open spec fn le_bytes(x: u32) -> Seq<u8> {
    seq![x as u8, (x >> 8u32) as u8, (x >> 16u32) as u8, (x >> 24u32) as u8]
}

/// `r` is a packed grid of side `n`: `n` little-endian, then `n * n`
/// module values, each 0 (light) or 1 (dark).
pub open spec fn packed_grid(r: Seq<u8>, n: u32) -> bool {
    &&& n % 4 == 1
    &&& r.len() == 4 + n * n
    &&& r.take(4) == le_bytes(n)
    &&& forall|j: int| 4 <= j < r.len() ==> #[trigger] r[j] <= 1
}

/// Encodes `data` as a QR code at level `ec_level` (see `ecc_from_level`)
/// and packs its grid row by row; empty when the data does not fit.
pub fn qr_generate(data: &[u8], ec_level: u8) -> (r: Vec<u8>)
    ensures
        r@.len() == 0 || exists|n: u32| 21 <= n <= 177 && packed_grid(r@, n),
        data@.len() > 2953 ==> r@.len() == 0,
{
    let ecc = ecc_from_level(ec_level);
    let qr = match encode_binary(data, ecc) {
        Some(q) => q,
        None => return Vec::new(),
    };
    let size = qr.size();
    let n = size as u32;
    let mut out: Vec<u8> = Vec::new();
    out.push(n as u8);
    out.push((n >> 8u32) as u8);
    out.push((n >> 16u32) as u8);
    out.push((n >> 24u32) as u8);
    assert(out@ =~= le_bytes(n));
    let mut y: i32 = 0;
    while y < size
        invariant
            21 <= size <= 177,
            size % 4 == 1,
            n == size,
            0 <= y <= size,
            out@.len() == 4 + y * size,
            out@.take(4) == le_bytes(n),
            forall|j: int| 4 <= j < out@.len() ==> #[trigger] out@[j] <= 1,
        decreases size - y,
    {
        let mut x: i32 = 0;
        while x < size
            invariant
                21 <= size <= 177,
                n == size,
                0 <= y < size,
                0 <= x <= size,
                out@.len() == 4 + y * size + x,
                out@.take(4) == le_bytes(n),
                forall|j: int| 4 <= j < out@.len() ==> #[trigger] out@[j] <= 1,
            decreases size - x,
        {
            proof {
                assert(y * size + x < 177 * 177) by (nonlinear_arith)
                    requires
                        0 <= y < size,
                        0 <= x < size,
                        size <= 177,
                ;
            }
            let ghost prev = out@;
            out.push(if qr.get_module(x, y) { 1u8 } else { 0u8 });
            assert(out@.take(4) =~= prev.take(4));
            x = x + 1;
        }
        assert((y + 1) * size == y * size + size) by (nonlinear_arith);
        y = y + 1;
    }
    assert(packed_grid(out@, n));
    out
}

} // verus!
