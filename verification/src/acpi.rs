use vstd::prelude::*;

use vstd::arithmetic::div_mod::{lemma_mod_multiples_vanish, lemma_small_mod};

verus! {

/// Candidate spacing: the root-pointer structure may only lie on a 16-byte
/// boundary of the legacy window.
pub const RSDP_ALIGN: usize = 16;

/// Length in bytes of the checksummed root-pointer structure.
pub const RSDP_LEN: usize = 20;

/// The eight signature bytes, `"RSD PTR "`.
pub open spec fn rsdp_signature() -> Seq<u8> {
    seq![82u8, 83u8, 68u8, 32u8, 80u8, 84u8, 82u8, 32u8]
}

/// Sum of a byte sequence.
pub open spec fn byte_sum(s: Seq<u8>) -> int
    decreases s.len(),
{
    if s.len() == 0 {
        0
    } else {
        byte_sum(s.drop_last()) + s.last()
    }
}

/// Whether a valid root-pointer structure lies at offset `i` of the
/// window: 16-byte aligned, carrying the signature, and summing to zero
/// modulo 256 over its whole length.
pub open spec fn valid_rsdp_at(win: Seq<u8>, i: int) -> bool {
    &&& 0 <= i
    &&& i % (RSDP_ALIGN as int) == 0
    &&& i + RSDP_LEN <= win.len()
    &&& win.subrange(i, i + 8) == rsdp_signature()
    &&& byte_sum(win.subrange(i, i + RSDP_LEN)) % 256 == 0
}

/// Checks one aligned candidate offset for signature and checksum.
fn check_candidate(window: &[u8], i: usize) -> (r: bool)
    requires
        i + RSDP_LEN <= window@.len(),
        i % RSDP_ALIGN == 0,
    ensures
        r == valid_rsdp_at(window@, i as int),
{
    let n = window.len();
    let sig: [u8; 8] = [82, 83, 68, 32, 80, 84, 82, 32];
    let mut k: usize = 0;
    while k < 8
        invariant
            k <= 8,
            n == window@.len(),
            i + RSDP_LEN <= n,
            sig@ == rsdp_signature(),
            forall|t: int| 0 <= t < k ==> window@[i + t] == rsdp_signature()[t],
        decreases 8 - k,
    {
        if window[i + k] != sig[k] {
            proof {
                if window@.subrange(i as int, i as int + 8) == rsdp_signature() {
                    assert(window@.subrange(i as int, i as int + 8)[k as int] == rsdp_signature()[
                        k as int
                    ]);
                    assert(false);
                }
            }
            return false;
        }
        k += 1;
    }
    proof {
        assert(window@.subrange(i as int, i as int + 8) =~= rsdp_signature());
    }
    let mut sum: u32 = 0;
    let mut j: usize = 0;
    while j < RSDP_LEN
        invariant
            j <= RSDP_LEN,
            n == window@.len(),
            i + RSDP_LEN <= n,
            sum == byte_sum(window@.subrange(i as int, i as int + j)),
            sum <= j * 255,
        decreases RSDP_LEN - j,
    {
        let ghost pre = window@.subrange(i as int, i as int + j);
        sum = sum + window[i + j] as u32;
        proof {
            let post = window@.subrange(i as int, i as int + j + 1);
            assert(post =~= pre.push(window@[i + j]));
            assert(post.drop_last() =~= pre);
        }
        j += 1;
    }
    sum % 256 == 0
}

/// Scans the fixed legacy window for the ACPI root pointer. Candidates lie
/// on 16-byte boundaries; a hit needs the signature and a zero checksum.
/// Returns the offset of the first valid structure, or `None` when the
/// window holds none — absence is a valid, non-error outcome, forwarded to
/// the kernel as an explicitly absent value. The caller reads the window
/// with virtual equal to physical and adds the window's base address to
/// the returned offset.
pub fn find_rsdp(window: &[u8]) -> (r: Option<usize>)
    ensures
        match r {
            Some(i) => {
                &&& valid_rsdp_at(window@, i as int)
                &&& forall|j: int| 0 <= j < i ==> !valid_rsdp_at(window@, j)
            },
            None => forall|j: int| !valid_rsdp_at(window@, j),
        },
{
    let n = window.len();
    if n < RSDP_LEN {
        proof {
            assert forall|j: int| !valid_rsdp_at(window@, j) by {}
        }
        return None;
    }
    let mut i: usize = 0;
    while i <= n - RSDP_LEN
        invariant
            n == window@.len(),
            RSDP_LEN <= n,
            i % RSDP_ALIGN == 0,
            forall|j: int| 0 <= j < i ==> !valid_rsdp_at(window@, j),
        decreases n - i,
    {
        if check_candidate(window, i) {
            return Some(i);
        }
        proof {
            assert forall|j: int| 0 <= j < i + RSDP_ALIGN implies !valid_rsdp_at(window@, j) by {
                if i <= j {
                    if j == i {
                    } else {
                        let d = j - i;
                        assert(0 < d < RSDP_ALIGN);
                        assert(j % (RSDP_ALIGN as int) == d) by {
                            lemma_mod_multiples_vanish(
                                i as int / (RSDP_ALIGN as int),
                                d,
                                RSDP_ALIGN as int,
                            );
                            vstd::arithmetic::div_mod::lemma_fundamental_div_mod(
                                i as int,
                                RSDP_ALIGN as int,
                            );
                            lemma_small_mod(d as nat, RSDP_ALIGN as nat);
                        }
                    }
                }
            }
        }
        i += RSDP_ALIGN;
    }
    proof {
        assert forall|j: int| !valid_rsdp_at(window@, j) by {
            if 0 <= j < i {
            } else if j >= i {
                assert(j + RSDP_LEN > n);
            }
        }
    }
    None
}

} // verus!
