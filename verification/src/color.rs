use vstd::prelude::*;

use rand::RngCore;
use rand::SeedableRng;
use vstd::string::StringSliceAdditionalSpecFns;

verus! {

/// The MD5 digest of a byte string. MD5 is a fixed published function of
/// its input alone; its value is not spelled out here.
pub uninterp spec fn md5_of(b: Seq<u8>) -> Seq<u8>;

/// Relies on `md5::compute`: the digest is 16 bytes and depends on the
/// input bytes alone.
#[verifier::external_body]
fn md5_digest(bytes: &[u8]) -> (r: Vec<u8>)
    ensures
        r@ == md5_of(bytes@),
        r@.len() == 16,
{
    md5::compute(bytes).0.to_vec()
}

/// The first 32-bit word drawn from a ChaCha8 generator seeded with the
/// given 32 bytes. The stream is a fixed published function of the seed
/// alone.
pub uninterp spec fn chacha8_draw_of(seed: Seq<u8>) -> u32;

/// Relies on `rand_chacha::ChaCha8Rng::from_seed` and
/// `rand::RngCore::next_u32`: the first word of the stream depends on the
/// seed alone.
#[verifier::external_body]
fn chacha8_first_u32(seed: &[u8]) -> (r: u32)
    requires
        seed@.len() == 32,
    ensures
        r == chacha8_draw_of(seed@),
{
    let mut arr = [0u8; 32];
    arr.copy_from_slice(seed);
    let mut rng = rand_chacha::ChaCha8Rng::from_seed(arr);
    rng.next_u32()
}

/// A saturation and lightness pairing for text-seeded colors, in
/// thousandths.
#[derive(Debug, Clone, Copy, PartialEq, Eq, Structural)]
pub struct HueColorProfile {
    pub saturation_permille: u32,
    pub lightness_permille: u32,
}

impl HueColorProfile {
    /// Saturation and lightness both within range.
    pub open spec fn wf(&self) -> bool {
        self.saturation_permille <= 1000 && self.lightness_permille <= 1000
    }
}

/// Soft colors: half saturation, high lightness.
pub fn pastel() -> (r: HueColorProfile)
    ensures
        r == (HueColorProfile { saturation_permille: 500, lightness_permille: 900 }),
        r.wf(),
{
    HueColorProfile { saturation_permille: 500, lightness_permille: 900 }
}

/// Washed-out colors: low saturation, high lightness.
pub fn tint() -> (r: HueColorProfile)
    ensures
        r == (HueColorProfile { saturation_permille: 200, lightness_permille: 900 }),
        r.wf(),
{
    HueColorProfile { saturation_permille: 200, lightness_permille: 900 }
}

/// Strong colors: high saturation, medium lightness.
pub fn dark() -> (r: HueColorProfile)
    ensures
        r == (HueColorProfile { saturation_permille: 700, lightness_permille: 500 }),
        r.wf(),
{
    HueColorProfile { saturation_permille: 700, lightness_permille: 500 }
}

/// Absolute value.
pub open spec fn spec_abs(x: int) -> int {
    if x < 0 {
        -x
    } else {
        x
    }
}

/// Clamp to one byte.
pub open spec fn spec_clamp255(x: int) -> int {
    if x < 0 {
        0
    } else if x > 255 {
        255
    } else {
        x
    }
}

/// The red, green and blue components, each 0 to 255, of the color with
/// hue `h` (degrees, 0 to 359) and saturation and lightness in
/// thousandths, by the usual hexcone construction in integer arithmetic.
pub open spec fn spec_hsl_rgb(h: int, s: int, l: int) -> (int, int, int) {
    let c = ((1000 - spec_abs(2 * l - 1000)) * s) / 1000;
    let x = (c * (60 - spec_abs((h % 120) - 60))) / 60;
    let m = l - c / 2;
    let base = if h < 60 {
        (c, x, 0int)
    } else if h < 120 {
        (x, c, 0int)
    } else if h < 180 {
        (0int, c, x)
    } else if h < 240 {
        (0int, x, c)
    } else if h < 300 {
        (x, 0int, c)
    } else {
        (c, 0int, x)
    };
    (
        spec_clamp255(((base.0 + m) * 255) / 1000),
        spec_clamp255(((base.1 + m) * 255) / 1000),
        spec_clamp255(((base.2 + m) * 255) / 1000),
    )
}

fn clamp255(x: u32) -> (r: u8)
    ensures
        r as int == spec_clamp255(x as int),
{
    if x > 255 {
        255
    } else {
        x as u8
    }
}

/// The color with the given hue, saturation and lightness, as red, green
/// and blue bytes.
pub fn hsl_to_rgb(h: u32, s: u32, l: u32) -> (r: (u8, u8, u8))
    requires
        h < 360,
        s <= 1000,
        l <= 1000,
    ensures
        (r.0 as int, r.1 as int, r.2 as int) == spec_hsl_rgb(h as int, s as int, l as int),
{
    let two_l: u32 = 2 * l;
    let spread: u32 = if two_l < 1000 {
        1000 - two_l
    } else {
        two_l - 1000
    };
    proof {
        assert(spread == spec_abs(2 * (l as int) - 1000));
    }
    proof {
        assert((1000 - spread as int) * (s as int) <= 1000 * 1000) by (nonlinear_arith)
            requires
                spread <= 1000,
                s <= 1000,
        ;
    }
    let c: u32 = ((1000 - spread) * s) / 1000;
    let hm: u32 = h % 120;
    let hd: u32 = if hm < 60 {
        60 - hm
    } else {
        hm - 60
    };
    proof {
        assert(hd == spec_abs((h as int % 120) - 60));
    }
    proof {
        assert(c <= 1000) by {
            assert((1000 - spread as int) * (s as int) <= (1000 - spread as int) * 1000)
                by (nonlinear_arith)
                requires
                    spread <= 1000,
                    s <= 1000,
            ;
        }
        assert((c as int) * (60 - hd as int) <= 1000 * 60) by (nonlinear_arith)
            requires
                c <= 1000,
                hd <= 60,
        ;
    }
    let x: u32 = (c * (60 - hd)) / 60;
    let m: u32 = l - (if c / 2 > l {
        proof {
            assert((1000 - spread as int) * (s as int) <= (1000 - spread as int) * 1000)
                by (nonlinear_arith)
                requires
                    s <= 1000,
                    spread <= 1000,
            ;
            vstd::arithmetic::div_mod::lemma_div_is_ordered(
                (1000 - spread as int) * (s as int),
                (1000 - spread as int) * 1000,
                1000,
            );
            vstd::arithmetic::div_mod::lemma_div_by_multiple(1000 - spread as int, 1000);
            assert(c <= 1000 - spread);
            assert(false);
        }
        0
    } else {
        c / 2
    });
    let (b0, b1, b2): (u32, u32, u32) = if h < 60 {
        (c, x, 0)
    } else if h < 120 {
        (x, c, 0)
    } else if h < 180 {
        (0, c, x)
    } else if h < 240 {
        (0, x, c)
    } else if h < 300 {
        (x, 0, c)
    } else {
        (c, 0, x)
    };
    let r0 = clamp255(((b0 + m) * 255) / 1000);
    let r1 = clamp255(((b1 + m) * 255) / 1000);
    let r2 = clamp255(((b2 + m) * 255) / 1000);
    (r0, r1, r2)
}

/// The 32-byte generator seed derived from a digest: the digest twice
/// over.
pub open spec fn spec_seed_of(d: Seq<u8>) -> Seq<u8> {
    d + d
}

/// The hue, 0 to 359, that a byte string deterministically seeds.
pub open spec fn spec_hue_of(bytes: Seq<u8>) -> int {
    chacha8_draw_of(spec_seed_of(md5_of(bytes))) as int % 360
}

/// The color a byte string and a profile deterministically pick: the text
/// seeds the hue, the profile gives saturation and lightness.
pub open spec fn spec_color_for(bytes: Seq<u8>, p: HueColorProfile) -> (int, int, int) {
    spec_hsl_rgb(spec_hue_of(bytes), p.saturation_permille as int, p.lightness_permille as int)
}

/// The deterministically generated color for a piece of text: a digest of
/// the text seeds a generator, one draw picks the hue, and the profile
/// fixes saturation and lightness. The same text and profile always give
/// the same color, in every process and on every run.
pub fn color_for(text: &str, profile: &HueColorProfile) -> (r: (u8, u8, u8))
    requires
        profile.wf(),
    ensures
        (r.0 as int, r.1 as int, r.2 as int) == spec_color_for(text.spec_bytes(), *profile),
{
    let bytes = text.as_bytes();
    let mut seed = md5_digest(bytes);
    let mut again = md5_digest(bytes);
    seed.append(&mut again);
    let draw = chacha8_first_u32(seed.as_slice());
    let h = draw % 360;
    hsl_to_rgb(h, profile.saturation_permille, profile.lightness_permille)
}

/// Color determinism: the generated color is a function of the text bytes
/// and the profile alone, so equal text and equal profile always give
/// equal colors, across calls, processes and runs.
pub proof fn lemma_color_determinism(a: Seq<u8>, b: Seq<u8>, p: HueColorProfile, q: HueColorProfile)
    requires
        a == b,
        p == q,
    ensures
        spec_color_for(a, p) == spec_color_for(b, q),
{
}

} // verus!
