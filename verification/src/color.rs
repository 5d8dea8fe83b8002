//! Deterministic region coloring: a few high-profile countries carry fixed
//! colors; every other region is hashed into a legible part of HSL space.

use crate::data::{Region, RegionV};
use crate::order::str_eq;
use vstd::prelude::*;

verus! {

/// One color channel as an exact fraction in `[0, 1]`.
#[derive(Clone, Copy, PartialEq, Eq, Structural, Debug)]
pub struct Channel {
    pub num: u128,
    pub den: u128,
}

/// A color in HSL space, each channel an exact fraction.
#[derive(Clone, Copy, PartialEq, Eq, Structural, Debug)]
pub struct Hsl {
    pub hue: Channel,
    pub saturation: Channel,
    pub lightness: Channel,
}

/// One round of the 64-bit FNV-1a hash, folding in one character's code
/// point: exclusive-or, then multiplication by the FNV prime modulo 2^64.
pub open spec fn hash_step(h: u64, c: char) -> u64 {
    ((((h ^ (c as u32 as u64)) as u128) * 0x100000001b3) % 0x10000000000000000) as u64
}

/// The FNV-1a hash of a character sequence, continued from state `h`.
pub open spec fn hash_chars(h: u64, s: Seq<char>) -> u64
    decreases s.len(),
{
    if s.len() == 0 {
        h
    } else {
        hash_chars(hash_step(h, s[0]), s.drop_first())
    }
}

/// The hash of a region: its country's characters, then its state's,
/// folded into the FNV-1a offset basis.
pub open spec fn region_hash(r: RegionV) -> u64 {
    hash_chars(hash_chars(0xcbf29ce484222325, r.country), r.state)
}

/// The color every region deterministically gets. Four well-known
/// countries keep fixed, memorable colors; any other region is colored
/// from its hash: the full hue circle, saturation in `[0.25, 0.75)` and
/// lightness in `[0.4, 0.65)`, the two derived through moduli of their
/// own (113 and 3463) so that they do not follow the hue.
pub open spec fn color_spec(r: RegionV) -> Hsl {
    if r.country == "US"@ && r.state.len() == 0 {
        Hsl {
            hue: Channel { num: 60277, den: 100000 },
            saturation: Channel { num: 1, den: 1 },
            lightness: Channel { num: 59, den: 100 },
        }
    } else if r.country == "China"@ && r.state.len() == 0 {
        Hsl {
            hue: Channel { num: 1944, den: 100000 },
            saturation: Channel { num: 87, den: 100 },
            lightness: Channel { num: 47, den: 100 },
        }
    } else if r.country == "Italy"@ && r.state.len() == 0 {
        Hsl {
            hue: Channel { num: 4166, den: 10000 },
            saturation: Channel { num: 1, den: 1 },
            lightness: Channel { num: 45, den: 100 },
        }
    } else if r.country == "Spain"@ && r.state.len() == 0 {
        Hsl {
            hue: Channel { num: 116, den: 1000 },
            saturation: Channel { num: 99, den: 100 },
            lightness: Channel { num: 58, den: 100 },
        }
    } else {
        let h = region_hash(r);
        Hsl {
            hue: Channel { num: h as u128, den: 0x10000000000000000 },
            saturation: Channel { num: (113 + 2 * (h % 113)) as u128, den: 452 },
            lightness: Channel { num: (27704 + 5 * (h % 3463)) as u128, den: 69260 },
        }
    }
}

proof fn lemma_hash_chars_step(h0: u64, s: Seq<char>, i: int)
    requires
        0 <= i < s.len(),
    ensures
        hash_chars(h0, s.skip(i)) == hash_chars(hash_step(h0, s[i]), s.skip(i + 1)),
{
    assert(s.skip(i).drop_first() =~= s.skip(i + 1));
    assert(s.skip(i)[0] == s[i]);
}

/// Folds a string's characters into the running FNV-1a state.
fn hash_str(h0: u64, s: &str) -> (r: u64)
    ensures
        r == hash_chars(h0, s@),
{
    let n = s.unicode_len();
    let mut h: u64 = h0;
    let mut i: usize = 0;
    proof {
        assert(s@.skip(0) =~= s@);
    }
    while i < n
        invariant
            i <= n,
            n == s@.len(),
            hash_chars(h0, s@) == hash_chars(h, s@.skip(i as int)),
        decreases n - i,
    {
        let c = s.get_char(i);
        proof {
            lemma_hash_chars_step(h, s@, i as int);
        }
        h = ((((h ^ (c as u32 as u64)) as u128) * 0x100000001b3) % 0x10000000000000000) as u64;
        i = i + 1;
    }
    proof {
        assert(s@.skip(n as int).len() == 0);
    }
    h
}

impl Region {
    /// The color shown for this region, both in the selector and in the
    /// chart; a pure function of the region's names.
    pub fn color(&self) -> (c: Hsl)
        ensures
            c == color_spec(self@),
    {
        let country_level = self.state.as_str().unicode_len() == 0;
        if country_level && str_eq(self.country.as_str(), "US") {
            Hsl {
                hue: Channel { num: 60277, den: 100000 },
                saturation: Channel { num: 1, den: 1 },
                lightness: Channel { num: 59, den: 100 },
            }
        } else if country_level && str_eq(self.country.as_str(), "China") {
            Hsl {
                hue: Channel { num: 1944, den: 100000 },
                saturation: Channel { num: 87, den: 100 },
                lightness: Channel { num: 47, den: 100 },
            }
        } else if country_level && str_eq(self.country.as_str(), "Italy") {
            Hsl {
                hue: Channel { num: 4166, den: 10000 },
                saturation: Channel { num: 1, den: 1 },
                lightness: Channel { num: 45, den: 100 },
            }
        } else if country_level && str_eq(self.country.as_str(), "Spain") {
            Hsl {
                hue: Channel { num: 116, den: 1000 },
                saturation: Channel { num: 99, den: 100 },
                lightness: Channel { num: 58, den: 100 },
            }
        } else {
            let h = hash_str(hash_str(0xcbf29ce484222325, self.country.as_str()), self.state.as_str());
            Hsl {
                hue: Channel { num: h as u128, den: 0x10000000000000000 },
                saturation: Channel { num: (113 + 2 * (h % 113)) as u128, den: 452 },
                lightness: Channel { num: (27704 + 5 * (h % 3463)) as u128, den: 69260 },
            }
        }
    }
}

/// Coloring is idempotent on region identity: structurally equal regions
/// always receive identical colors, within and across calls.
pub proof fn lemma_color_deterministic(a: RegionV, b: RegionV)
    requires
        a.country == b.country,
        a.state == b.state,
    ensures
        color_spec(a) == color_spec(b),
{
    assert(a == b);
}

/// Whether a region carries one of the fixed, memorable colors.
pub open spec fn has_pinned_color(r: RegionV) -> bool {
    r.state.len() == 0 && (r.country == "US"@ || r.country == "China"@ || r.country == "Italy"@
        || r.country == "Spain"@)
}

/// Every channel of every color is a well-formed fraction in `[0, 1]`,
/// and a hashed (not pinned) region stays in the legible envelope: its
/// saturation lies in `[1/4, 3/4)` and its lightness in `[2/5, 13/20)`.
pub proof fn lemma_color_envelope(r: RegionV)
    ensures
        ({
            let c = color_spec(r);
            &&& 0 < c.hue.den && c.hue.num <= c.hue.den
            &&& 0 < c.saturation.den && c.saturation.num <= c.saturation.den
            &&& 0 < c.lightness.den && c.lightness.num <= c.lightness.den
        }),
        !has_pinned_color(r) ==> ({
            let c = color_spec(r);
            &&& 4 * c.saturation.num >= c.saturation.den
            &&& 4 * c.saturation.num < 3 * c.saturation.den
            &&& 5 * c.lightness.num >= 2 * c.lightness.den
            &&& 20 * c.lightness.num < 13 * c.lightness.den
        }),
{
}

} // verus!
