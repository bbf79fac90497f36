use vstd::prelude::*;

verus! {

/// The checksum of a unit: the sum of its bytes, modulo 2^16.
pub open spec fn checksum_of(s: Seq<u8>) -> nat
    decreases s.len(),
{
    if s.len() == 0 {
        0
    } else {
        ((checksum_of(s.drop_last()) + s.last()) % 65536) as nat
    }
}

/// A unit with its checksum appended, high byte first.
pub open spec fn framed_of(payload: Seq<u8>) -> Seq<u8> {
    payload + seq![(checksum_of(payload) / 256) as u8, (checksum_of(payload) % 256) as u8]
}

/// What the receiving side makes of a frame. A corrupt frame is reported as
/// such, so that the layer above can tell it from a unit that never arrived.
#[derive(Debug)]
pub enum CheckVerdict {
    Intact(Vec<u8>),
    Corrupt,
}

/// The verdict on a frame, as a value: the payload when the frame is at least two
/// bytes long and its last two bytes are the checksum of the rest.
pub open spec fn checked_of(frame: Seq<u8>) -> Option<Seq<u8>> {
    if frame.len() >= 2 && framed_of(frame.take(frame.len() - 2)) == frame {
        Some(frame.take(frame.len() - 2))
    } else {
        None
    }
}

/// Computes the checksum of `data`.
pub fn checksum(data: &[u8]) -> (r: u16)
    ensures
        r as nat == checksum_of(data@),
{
    let mut acc: u32 = 0;
    let mut i: usize = 0;
    while i < data.len()
        invariant
            i <= data@.len(),
            acc as nat == checksum_of(data@.take(i as int)),
            acc < 65536,
        decreases data.len() - i,
    {
        assert(data@.take(i as int + 1).drop_last() =~= data@.take(i as int));
        acc = (acc + data[i] as u32) % 65536;
        i = i + 1;
    }
    assert(data@.take(i as int) =~= data@);
    acc as u16
}

/// Appends the checksum to a unit.
pub fn frame(payload: &[u8]) -> (r: Vec<u8>)
    ensures
        r@ == framed_of(payload@),
{
    let sum = checksum(payload);
    let mut r: Vec<u8> = Vec::new();
    let mut i: usize = 0;
    while i < payload.len()
        invariant
            i <= payload@.len(),
            r@ == payload@.take(i as int),
        decreases payload.len() - i,
    {
        r.push(payload[i]);
        i = i + 1;
        assert(r@ =~= payload@.take(i as int));
    }
    r.push((sum / 256) as u8);
    r.push((sum % 256) as u8);
    assert(payload@.take(i as int) =~= payload@);
    assert(r@ =~= framed_of(payload@));
    r
}

/// Checks a frame: its payload when the checksum matches, `Corrupt` otherwise.
pub fn check(frame: &[u8]) -> (r: CheckVerdict)
    ensures
        match r {
            CheckVerdict::Intact(p) => checked_of(frame@) == Some(p@),
            CheckVerdict::Corrupt => checked_of(frame@) is None,
        },
{
    if frame.len() < 2 {
        return CheckVerdict::Corrupt;
    }
    let n = frame.len() - 2;
    let mut payload: Vec<u8> = Vec::new();
    let mut i: usize = 0;
    while i < n
        invariant
            n == frame@.len() - 2,
            i <= n,
            payload@ == frame@.take(i as int),
        decreases n - i,
    {
        payload.push(frame[i]);
        i = i + 1;
        assert(payload@ =~= frame@.take(i as int));
    }
    let sum = checksum(payload.as_slice());
    let hi = (sum / 256) as u8;
    let lo = (sum % 256) as u8;
    let ghost p = payload@;
    assert(framed_of(p) =~= p + seq![hi, lo]);
    if frame[n] == hi && frame[n + 1] == lo {
        assert(framed_of(p) =~= frame@);
        CheckVerdict::Intact(payload)
    } else {
        assert(framed_of(p)[n as int] == hi);
        assert(framed_of(p)[n as int + 1] == lo);
        CheckVerdict::Corrupt
    }
}

/// Checking a freshly framed unit gives the unit back.
pub proof fn lemma_frame_then_check(payload: Seq<u8>)
    ensures
        checked_of(framed_of(payload)) == Some(payload),
{
    let f = framed_of(payload);
    assert(f.take(f.len() - 2) =~= payload);
}

} // verus!
