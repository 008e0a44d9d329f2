//! Console output framing: each hart writes in its own colour, with ANSI
//! sequences `ESC [ <code> m` before the text and `ESC [ 0 m` after it.
use vstd::prelude::*;

verus! {

/// The colour code (SGR parameter) of hart `hart_id`; harts past the
/// fourth write in the terminal's default colour.
pub open spec fn hart_color(hart_id: usize) -> Seq<u8> {
    if hart_id == 0 {
        seq![0x33u8, 0x31u8]
    } else if hart_id == 1 {
        seq![0x39u8, 0x33u8]
    } else if hart_id == 2 {
        seq![0x33u8, 0x34u8]
    } else if hart_id == 3 {
        seq![0x33u8, 0x32u8]
    } else {
        Seq::empty()
    }
}

/// What the console receives when hart `hart_id` writes `text`: the
/// colour sequence, the text, and the reset sequence.
pub open spec fn framed(hart_id: usize, text: Seq<u8>) -> Seq<u8> {
    seq![0x1bu8, 0x5bu8] + hart_color(hart_id) + seq![0x6du8] + text + seq![0x1bu8, 0x5bu8, 0x30u8, 0x6du8]
}

/// The bytes to send to the console for `text` written by hart `hart_id`.
pub fn colored_output(hart_id: usize, text: &[u8]) -> (r: Vec<u8>)
    ensures
        r@ == framed(hart_id, text@),
{
    let mut out: Vec<u8> = Vec::new();
    out.push(0x1b);
    out.push(0x5bu8);
    if hart_id == 0 {
        out.push(0x33u8);
        out.push(0x31u8);
    } else if hart_id == 1 {
        out.push(0x39u8);
        out.push(0x33u8);
    } else if hart_id == 2 {
        out.push(0x33u8);
        out.push(0x34u8);
    } else if hart_id == 3 {
        out.push(0x33u8);
        out.push(0x32u8);
    }
    out.push(0x6du8);
    let ghost head = out@;
    proof {
        assert(head =~= seq![0x1bu8, 0x5bu8] + hart_color(hart_id) + seq![0x6du8]);
    }
    let mut i: usize = 0;
    while i < text.len()
        invariant
            i <= text@.len(),
            out@ == head + text@.subrange(0, i as int),
        decreases text@.len() - i,
    {
        out.push(text[i]);
        i += 1;
        proof {
            assert(out@ =~= head + text@.subrange(0, i as int));
        }
    }
    out.push(0x1b);
    out.push(0x5bu8);
    out.push(0x30u8);
    out.push(0x6du8);
    proof {
        assert(text@.subrange(0, text@.len() as int) =~= text@);
        assert(out@ =~= framed(hart_id, text@));
    }
    out
}

} // verus!
