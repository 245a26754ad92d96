use vstd::prelude::*;

verus! {

/// Number of characters of every identifier produced by [`generate`].
pub const ID_LENGTH: usize = 16;

/// Offset basis of the 64-bit FNV-1a hash.
pub const FNV_OFFSET: u64 = 0xcbf29ce484222325;

/// Prime of the 64-bit FNV-1a hash.
pub const FNV_PRIME: u64 = 0x100000001b3;

/// One FNV-1a step: fold one character into the running hash.
pub open spec fn fnv_step(h: u64, c: char) -> u64 {
    vstd::wrapping::u64_specs::wrapping_mul(h ^ (c as u64), FNV_PRIME)
}

/// The 64-bit FNV-1a hash of a character sequence.
pub open spec fn fnv_hash(s: Seq<char>) -> u64
    decreases s.len(),
{
    if s.len() == 0 {
        FNV_OFFSET
    } else {
        fnv_step(fnv_hash(s.drop_last()), s.last())
    }
}

/// The lower-case hex digit for a value below 16.
pub open spec fn hex_digit(n: u64) -> char {
    if n < 10 {
        (0x30 + n as u8) as char
    } else {
        (0x57 + n as u8) as char
    }
}

/// The nibble of `h` that the digit at position `i` (most significant first)
/// of its 16-digit hex rendering shows.
pub open spec fn nibble(h: u64, i: int) -> u64 {
    (h >> (((15 - i) * 4) as u64)) & 0xf
}

/// The 16-digit lower-case hex rendering of a 64-bit value.
pub open spec fn hex_render(h: u64) -> Seq<char> {
    Seq::new(16, |i: int| hex_digit(nibble(h, i)))
}

/// The identifier of a payload: the hex rendering of its FNV-1a hash.
/// Deterministic, and always `ID_LENGTH` characters long.
pub open spec fn id_of(s: Seq<char>) -> Seq<char> {
    hex_render(fnv_hash(s))
}

/// Every identifier is exactly `ID_LENGTH` characters long.
pub proof fn lemma_id_length(s: Seq<char>)
    ensures
        id_of(s).len() == ID_LENGTH,
{
}

/// Computes the deterministic identifier of a payload.
pub fn generate(payload: &String) -> (id: String)
    ensures
        id@ == id_of(payload@),
        id@.len() == ID_LENGTH,
{
    let pay: &str = payload.as_str();
    let n: usize = pay.unicode_len();
    let mut h: u64 = FNV_OFFSET;
    let mut i: usize = 0;
    while i < n
        invariant
            i <= n,
            n == pay@.len(),
            h == fnv_hash(pay@.subrange(0, i as int)),
        decreases n - i,
    {
        let c: char = pay.get_char(i);
        proof {
            assert(pay@.subrange(0, i + 1).drop_last() =~= pay@.subrange(0, i as int));
            assert(pay@.subrange(0, i + 1).last() == pay@[i as int]);
        }
        h = (h ^ (c as u64)).wrapping_mul(FNV_PRIME);
        i = i + 1;
    }
    proof {
        assert(pay@.subrange(0, n as int) =~= pay@);
    }
    let mut id = String::new();
    let mut j: usize = 0;
    while j < 16
        invariant
            j <= 16,
            id@ =~= hex_render(h).subrange(0, j as int),
        decreases 16 - j,
    {
        let shift: u64 = ((15 - j) * 4) as u64;
        let nib: u64 = (h >> shift) & 0xf;
        proof {
            assert(nib <= 0xf) by (bit_vector)
                requires
                    nib == (h >> shift) & 0xf,
            ;
        }
        let d: char = if nib < 10 {
            (0x30 + nib as u8) as char
        } else {
            (0x57 + nib as u8) as char
        };
        proof {
            assert(nib == nibble(h, j as int));
            assert(d == hex_digit(nibble(h, j as int)));
            assert(hex_render(h).subrange(0, j + 1) =~= hex_render(h).subrange(
                0,
                j as int,
            ).push(hex_render(h)[j as int]));
        }
        id.push(d);
        j = j + 1;
    }
    proof {
        assert(hex_render(h).subrange(0, 16) =~= hex_render(h));
    }
    id
}

/// Relies on `String::push`: appends exactly the given character to the
/// end of the string.
pub assume_specification[ String::push ](s: &mut String, ch: char)
    ensures
        final(s)@ == old(s)@.push(ch),
;

} // verus!
