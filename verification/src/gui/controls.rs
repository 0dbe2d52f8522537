//! Top bar: what it says of the connected phones.

use vstd::prelude::*;

use crate::ieee::Real32;
use crate::text::{append_number, digits};

verus! {

/// Phones that are listed.
pub const LISTED: usize = 4;

/// Windows below this width stack everything in one column: 700, as an IEEE 754
/// pattern.
pub const NARROW: u32 = 0x442f_0000;

/// Badges below this width are compact: 54, as an IEEE 754 pattern.
pub const COMPACT: u32 = 0x4258_0000;

/// Whether the layout is that of a phone.
pub fn is_narrow(width: &Real32) -> (r: bool)
    ensures
        r == width.below(Real32 { bits: NARROW }),
{
    width.less(&Real32::from_bits(NARROW))
}

/// Whether badges of this width are compact.
pub fn is_compact(width: &Real32) -> (r: bool)
    ensures
        r == width.below(Real32 { bits: COMPACT }),
{
    width.less(&Real32::from_bits(COMPACT))
}

/// Which phones are listed, last first: the first `LISTED` in reverse.
pub fn listed(phones: usize) -> (r: Vec<usize>)
    ensures
        r.len() == (if phones < LISTED {
            phones
        } else {
            LISTED
        }),
        forall|i: int| 0 <= i < r.len() ==> (#[trigger] r[i]) == r.len() - 1 - i,
{
    let n: usize = if phones < LISTED { phones } else { LISTED };
    let mut r: Vec<usize> = Vec::new();
    let mut i: usize = 0;
    while i < n
        invariant
            i <= n,
            r.len() == i,
            forall|k: int| 0 <= k < i ==> (#[trigger] r[k]) == n - 1 - k,
        decreases n - i,
    {
        r.push(n - 1 - i);
        i = i + 1;
    }
    r
}

/// What is said of the phones that are not listed.
pub fn more_phones(phones: usize) -> (text: Option<String>)
    ensures
        match text {
            Some(t) => phones > LISTED && t@ == "+"@ + digits((phones - LISTED) as nat) + " more"@,
            None => phones <= LISTED,
        },
{
    if phones <= LISTED {
        return None;
    }
    let mut t: String = String::from_str("+");
    append_number(&mut t, (phones - LISTED) as u64);
    t.append(" more");
    Some(t)
}

/// Where the phones stand, and whether they are in the beam.
pub fn phone_status(phones: usize, beam_mics: usize) -> (r: (String, bool))
    ensures
        r.1 == (beam_mics >= 2),
        r.0@ == if beam_mics >= 2 {
            "beamforming ×"@ + digits(beam_mics as nat)
        } else {
            digits(phones as nat) + " phone mic(s) · seeking lock"@
        },
{
    if beam_mics >= 2 {
        let mut t: String = String::from_str("beamforming ×");
        append_number(&mut t, beam_mics as u64);
        (t, true)
    } else {
        let mut t: String = String::new();
        append_number(&mut t, phones as u64);
        t.append(" phone mic(s) · seeking lock");
        assert(t@ =~= digits(phones as nat) + " phone mic(s) · seeking lock"@);
        (t, false)
    }
}

/// The name of an input device with its number of channels.
pub fn device_label(name: &str, channels: usize) -> (label: String)
    ensures
        label@ == name@ + " ("@ + digits(channels as nat) + " ch)"@,
{
    let mut label: String = String::from_str(name);
    label.append(" (");
    append_number(&mut label, channels as u64);
    label.append(" ch)");
    label
}

} // verus!
