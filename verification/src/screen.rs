use vstd::prelude::*;

verus! {

/// The bytes the legacy text service must be handed for one character:
/// ASCII passes through, a line feed (10) gains a carriage return (13), and
/// anything beyond ASCII is shown as `X` (88).
pub open spec fn encode_char(c: char) -> Seq<u8> {
    if (c as u32) < 128 {
        if (c as u32) == 10 {
            seq![10u8, 13u8]
        } else {
            seq![(c as u32) as u8]
        }
    } else {
        seq![88u8]
    }
}

/// The bytes the legacy text service must be handed for a string.
pub open spec fn encode_str(s: Seq<char>) -> Seq<u8>
    decreases s.len(),
{
    if s.len() == 0 {
        Seq::empty()
    } else {
        encode_char(s[0]) + encode_str(s.drop_first())
    }
}

/// Encoding a string one character longer appends that character's bytes.
proof fn lemma_encode_snoc(s: Seq<char>, c: char)
    ensures
        encode_str(s.push(c)) == encode_str(s) + encode_char(c),
    decreases s.len(),
{
    if s.len() == 0 {
        assert(s.push(c).len() == 1);
        assert(s.push(c)[0] == c);
        assert(s.push(c).drop_first() =~= Seq::<char>::empty());
        assert(encode_str(Seq::<char>::empty()) =~= Seq::<u8>::empty());
        assert(encode_str(s.push(c)) =~= encode_char(c) + encode_str(s.push(c).drop_first()));
        assert(encode_str(s.push(c)) =~= encode_char(c));
        assert(encode_str(s) + encode_char(c) =~= encode_char(c));
    } else {
        assert(s.push(c).drop_first() =~= s.drop_first().push(c));
        lemma_encode_snoc(s.drop_first(), c);
        assert(encode_str(s.push(c)) =~= encode_str(s) + encode_char(c));
    }
}

/// Computes the byte sequence to hand to the legacy text service for `s`:
/// each ASCII character as itself, each line feed followed by a carriage
/// return, each non-ASCII character as an `X`. The raw firmware call that
/// transmits the bytes lives outside the library.
pub fn print_str(s: &str) -> (out: Vec<u8>)
    ensures
        out@ == encode_str(s@),
{
    let mut out: Vec<u8> = Vec::new();
    for c in it: s.chars()
        invariant
            it.seq() == s@,
            0 <= it.index() <= s@.len(),
            out@ == encode_str(s@.take(it.index() as int)),
    {
        let ghost done = s@.take(it.index() as int);
        let code: u32 = #[verifier::truncate] (c as u32);
        if code < 128 {
            out.push(code as u8);
            if code == 10 {
                out.push(13);
            }
        } else {
            out.push(88);
        }
        proof {
            assert(s@.take(it.index() as int + 1) =~= done.push(c));
            lemma_encode_snoc(done, c);
            if code < 128 {
                if code == 10 {
                    assert(encode_char(c) =~= seq![10u8, 13u8]);
                } else {
                    assert(encode_char(c) =~= seq![(c as u32) as u8]);
                }
            } else {
                assert(encode_char(c) =~= seq![88u8]);
            }
            assert(out@ =~= encode_str(done) + encode_char(c));
        }
    }
    proof {
        assert(s@.take(s@.len() as int) =~= s@);
    }
    out
}

/// Line-oriented diagnostic writer: collects the bytes that best-effort
/// boot diagnostics ask the legacy text service to emit.
pub struct Writer {
    /// Bytes awaiting transmission, in order.
    pub buffer: Vec<u8>,
}

impl Writer {
    /// A writer with nothing pending.
    pub fn new() -> (r: Self)
        ensures
            r.buffer@ == Seq::<u8>::empty(),
    {
        Writer { buffer: Vec::new() }
    }

    /// Appends the encoding of `s` to the pending bytes.
    pub fn write_str(&mut self, s: &str)
        ensures
            final(self).buffer@ == old(self).buffer@ + encode_str(s@),
    {
        let mut bytes = print_str(s);
        self.buffer.append(&mut bytes);
    }
}

} // verus!
