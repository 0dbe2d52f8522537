//! Vector scope: the two channels it pairs, and the zone of their correlation.

use vstd::prelude::*;

use crate::audio::RING_LEN;
use crate::gui::tuner::Zone;
use crate::ieee::Real32;
use crate::order::{is_last_largest, last_largest};
use crate::ring::{newest, tail_of};

verus! {

/// Pairs shown at most.
pub const SCOPE_LEN: usize = 2048;

/// More pairs than this are needed.
pub const SCOPE_MIN: usize = 256;

/// Channels that correlate better than this are in phase: 0.4, as an IEEE 754
/// pattern.
pub const IN_PHASE: u32 = 0x3ecc_cccd;

/// Channels that correlate better than this are near it: -0.2, as an IEEE 754
/// pattern.
pub const NEAR_PHASE: u32 = 0xbe4c_cccd;

/// Channels that vary no more than this correlate with nothing: 1e-12, as an IEEE
/// 754 pattern.
pub const VARIATION_FLOOR: u32 = 0x2b8c_bccc;

/// A phone as the scope sees it.
pub struct ScopePhone<T> {
    pub level: Real32,
    pub samples: Vec<T>,
}

/// The levels of phones.
pub open spec fn phone_levels<T>(phones: Seq<ScopePhone<T>>) -> Seq<Real32> {
    Seq::new(phones.len(), |i: int| phones[i].level)
}

/// The newest samples of the local window, each with the phone's sample that came
/// with it.
pub open spec fn paired<T>(window: Seq<T>, samples: Seq<T>) -> Seq<(T, T)> {
    let right = newest(samples, SCOPE_LEN as nat);
    let left = newest(window, right.len());
    Seq::new(right.len(), |i: int| (left[i], right[i]))
}

/// A stream is long enough for the scope.
pub open spec fn enough(n: nat) -> bool {
    n > SCOPE_MIN
}

/// The pairs that the scope shows, left channel first: with phones connected, the
/// local microphone and the loudest phone, the last of several, once there is
/// enough of it; otherwise those of a true stereo input, if present.
pub fn stereo_pairs<T: Copy>(window: &Vec<T>, phones: &Vec<ScopePhone<T>>, stereo: &Option<Vec<(T, T)>>) -> (pairs:
    Option<Vec<(T, T)>>)
    requires
        window.len() == RING_LEN,
    ensures
        ({
            let by_phone = exists|k: int|
                is_last_largest(phone_levels(phones@), phones.len() as int, k) && enough(
                    (#[trigger] phones[k]).samples@.len(),
                );
            match pairs {
                Some(p) => {
                    ||| exists|k: int|
                        is_last_largest(phone_levels(phones@), phones.len() as int, k) && enough(
                            (#[trigger] phones[k]).samples@.len(),
                        ) && p@ == paired(window@, phones[k].samples@)
                    ||| {
                        &&& !by_phone
                        &&& stereo matches Some(s)
                        &&& enough(s@.len())
                        &&& p@ == newest(s@, SCOPE_LEN as nat)
                    }
                },
                None => !by_phone && match stereo {
                    Some(s) => !enough(s@.len()),
                    None => true,
                },
            }
        }),
{
    let mut levels: Vec<Real32> = Vec::new();
    let mut i: usize = 0;
    while i < phones.len()
        invariant
            i <= phones.len(),
            levels@ == phone_levels(phones@).take(i as int),
        decreases phones.len() - i,
    {
        levels.push(phones[i].level);
        i = i + 1;
        assert(levels@ =~= phone_levels(phones@).take(i as int));
    }
    assert(levels@ =~= phone_levels(phones@));
    let loudest: Option<usize> = last_largest(&levels);
    if let Some(k) = loudest {
        let right: Vec<T> = tail_of(&phones[k].samples, SCOPE_LEN);
        if right.len() > SCOPE_MIN {
            let left: Vec<T> = tail_of(window, right.len());
            let mut p: Vec<(T, T)> = Vec::new();
            let mut j: usize = 0;
            while j < right.len()
                invariant
                    j <= right.len() == left.len(),
                    right@ == newest(phones[k as int].samples@, SCOPE_LEN as nat),
                    left@ == newest(window@, right@.len()),
                    p@ == paired(window@, phones[k as int].samples@).take(j as int),
                decreases right.len() - j,
            {
                p.push((left[j], right[j]));
                j = j + 1;
                assert(p@ =~= paired(window@, phones[k as int].samples@).take(j as int));
            }
            assert(p@ =~= paired(window@, phones[k as int].samples@));
            assert(enough(phones[k as int].samples@.len()));
            return Some(p);
        }
        proof {
            assert forall|q: int|
                is_last_largest(phone_levels(phones@), phones.len() as int, q) implies !enough(
                (#[trigger] phones[q]).samples@.len(),
            ) by {
                crate::order::last_largest_is_unique(phone_levels(phones@), phones.len() as int, k as int, q);
            }
        }
    }
    match stereo {
        Some(s) => if s.len() > SCOPE_MIN {
            Some(tail_of(s, SCOPE_LEN))
        } else {
            None
        },
        None => None,
    }
}

/// The zone of a correlation.
pub open spec fn phase_of(r: Real32) -> Zone {
    if (Real32 { bits: IN_PHASE }).below(r) {
        Zone::Green
    } else if (Real32 { bits: NEAR_PHASE }).below(r) {
        Zone::Gold
    } else {
        Zone::Red
    }
}

/// The zone of a correlation.
pub fn phase_zone(r: &Real32) -> (z: Zone)
    ensures
        z == phase_of(*r),
{
    if Real32::from_bits(IN_PHASE).less(r) {
        Zone::Green
    } else if Real32::from_bits(NEAR_PHASE).less(r) {
        Zone::Gold
    } else {
        Zone::Red
    }
}

/// Whether two channels of this many pairs and these variations correlate at all.
pub fn correlates(pairs: usize, left: &Real32, right: &Real32) -> (r: bool)
    ensures
        r == (pairs >= 2 && !left.at_most(Real32 { bits: VARIATION_FLOOR }) && !right.at_most(
            Real32 { bits: VARIATION_FLOOR },
        )),
{
    pairs >= 2 && !left.less_or_equal(&Real32::from_bits(VARIATION_FLOOR)) && !right.less_or_equal(
        &Real32::from_bits(VARIATION_FLOOR),
    )
}

/// What the scope card says where phones cannot connect.
pub fn unavailable(reason: &str) -> (text: String)
    ensures
        text@ == "phone mic unavailable: "@ + reason@,
{
    let mut text: String = String::from_str("phone mic unavailable: ");
    text.append(reason);
    text
}

} // verus!
