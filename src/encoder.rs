use vstd::prelude::*;
use crate::wire::{bulk_frame, bulk_frames, command_bytes, decimal, CR, DIGIT_0, DOLLAR, LF, STAR};

verus! {

/// Appends the decimal digits of `n`.
fn push_decimal(out: &mut Vec<u8>, n: usize)
    ensures
        final(out)@ == old(out)@ + decimal(n as nat),
    decreases n,
{
    if n >= 10 {
        push_decimal(out, n / 10);
    }
    let d = (n % 10) as u8;
    out.push(DIGIT_0 + d);
    assert(final(out)@ =~= old(out)@ + decimal(n as nat)) by {
        if n >= 10 {
            assert(decimal(n as nat) == decimal((n / 10) as nat).push((DIGIT_0 + n % 10) as u8));
        }
    }
}

/// Appends `s` as a bulk string.
fn push_bulk(out: &mut Vec<u8>, s: &[u8])
    ensures
        final(out)@ == old(out)@ + bulk_frame(s@),
{
    out.push(DOLLAR);
    push_decimal(out, s.len());
    out.push(CR);
    out.push(LF);
    let ghost head = out@;
    let mut k: usize = 0;
    while k < s.len()
        invariant
            k <= s@.len(),
            out@ == head + s@.subrange(0, k as int),
        decreases s.len() - k,
    {
        out.push(s[k]);
        k = k + 1;
        assert(out@ =~= head + s@.subrange(0, k as int));
    }
    out.push(CR);
    out.push(LF);
    assert(s@.subrange(0, k as int) =~= s@);
    assert(out@ =~= old(out)@ + bulk_frame(s@));
}

/// The request that sends command `name` with `args`: an array of bulk
/// strings, the name first, each length counted in bytes.
pub fn format_command(name: &[u8], args: &[Vec<u8>]) -> (r: Vec<u8>)
    requires
        args@.len() < usize::MAX,
    ensures
        r@ == command_bytes(name@, args@.map_values(|a: Vec<u8>| a@)),
{
    let ghost parts = seq![name@] + args@.map_values(|a: Vec<u8>| a@);
    let mut out: Vec<u8> = Vec::new();
    out.push(STAR);
    push_decimal(&mut out, args.len() + 1);
    out.push(CR);
    out.push(LF);
    let ghost head = out@;
    push_bulk(&mut out, name);
    proof {
        assert(parts.subrange(0, 1).drop_last() =~= Seq::<Seq<u8>>::empty());
        assert(bulk_frames(Seq::<Seq<u8>>::empty()) == Seq::<u8>::empty());
        assert(parts.subrange(0, 1).last() == name@);
        assert(bulk_frames(parts.subrange(0, 1)) =~= bulk_frame(name@));
        assert(out@ =~= head + bulk_frames(parts.subrange(0, 1)));
    }
    let mut k: usize = 0;
    while k < args.len()
        invariant
            k <= args@.len(),
            parts == seq![name@] + args@.map_values(|a: Vec<u8>| a@),
            out@ == head + bulk_frames(parts.subrange(0, k + 1)),
        decreases args.len() - k,
    {
        push_bulk(&mut out, args[k].as_slice());
        proof {
            assert(parts.subrange(0, k + 2).drop_last() =~= parts.subrange(0, k + 1));
            assert(parts.subrange(0, k + 2).last() == args@[k as int]@);
            assert(out@ =~= head + bulk_frames(parts.subrange(0, k + 2)));
        }
        k = k + 1;
    }
    assert(parts.subrange(0, k + 1) =~= parts);
    out
}

} // verus!
