//! Log addresses: 128-bit identifiers minted once per log, kept as two
//! 64-bit words so every field stays 8-byte aligned. Rendered as the two
//! words' hex digits, concatenated.
use vstd::prelude::*;
use vstd::string::StringExecFns;

verus! {

/// The hex character for one digit value.
pub open spec fn hex_digit(d: int) -> char {
    if d == 0 {
        '0'
    } else if d == 1 {
        '1'
    } else if d == 2 {
        '2'
    } else if d == 3 {
        '3'
    } else if d == 4 {
        '4'
    } else if d == 5 {
        '5'
    } else if d == 6 {
        '6'
    } else if d == 7 {
        '7'
    } else if d == 8 {
        '8'
    } else if d == 9 {
        '9'
    } else if d == 10 {
        'a'
    } else if d == 11 {
        'b'
    } else if d == 12 {
        'c'
    } else if d == 13 {
        'd'
    } else if d == 14 {
        'e'
    } else {
        'f'
    }
}

/// The hex digits of `x`, most significant first, with no leading zeros
/// (a single `'0'` for zero).
pub open spec fn hex_of(x: int) -> Seq<char>
    decreases x,
{
    if x < 16 {
        seq![hex_digit(x)]
    } else {
        hex_of(x / 16) + seq![hex_digit(x % 16)]
    }
}

/// The identity of a log: two random 64-bit words.
#[derive(Clone, Copy, PartialEq, Eq, Structural, PartialOrd, Ord, Hash, Debug)]
pub struct Addr {
    pub w0: u64,
    pub w1: u64,
}

fn hex_digit_str(d: u64) -> (r: &'static str)
    requires
        d < 16,
    ensures
        r@ == seq![hex_digit(d as int)],
{
    proof {
        reveal_strlit("0");
        reveal_strlit("1");
        reveal_strlit("2");
        reveal_strlit("3");
        reveal_strlit("4");
        reveal_strlit("5");
        reveal_strlit("6");
        reveal_strlit("7");
        reveal_strlit("8");
        reveal_strlit("9");
        reveal_strlit("a");
        reveal_strlit("b");
        reveal_strlit("c");
        reveal_strlit("d");
        reveal_strlit("e");
        reveal_strlit("f");
    }
    let r: &'static str = match d {
        0 => "0",
        1 => "1",
        2 => "2",
        3 => "3",
        4 => "4",
        5 => "5",
        6 => "6",
        7 => "7",
        8 => "8",
        9 => "9",
        10 => "a",
        11 => "b",
        12 => "c",
        13 => "d",
        14 => "e",
        _ => "f",
    };
    proof {
        assert(r@ =~= seq![hex_digit(d as int)]);
    }
    r
}

/// Append the hex digits of `x`, most significant first.
fn push_hex(out: &mut String, x: u64)
    ensures
        final(out)@ == old(out)@ + hex_of(x as int),
    decreases x,
{
    if x < 16 {
        out.append(hex_digit_str(x));
    } else {
        push_hex(out, x / 16);
        out.append(hex_digit_str(x % 16));
        proof {
            assert(old(out)@ + hex_of((x / 16) as int) + seq![hex_digit((x % 16) as int)]
                =~= old(out)@ + hex_of(x as int));
        }
    }
}

impl Addr {
    pub fn new(w0: u64, w1: u64) -> (r: Addr)
        ensures
            r.w0 == w0 && r.w1 == w1,
    {
        Addr { w0, w1 }
    }

    /// Relies on rand::random to draw the two words of a fresh address;
    /// nothing can be promised of a random value.
    #[verifier::external_body]
    pub fn fresh() -> (r: Addr) {
        Addr { w0: rand::random(), w1: rand::random() }
    }

    /// The two words as concatenated lower-case hex.
    pub fn to_hex(&self) -> (r: String)
        ensures
            r@ == hex_of(self.w0 as int) + hex_of(self.w1 as int),
    {
        let mut out = String::new();
        push_hex(&mut out, self.w0);
        push_hex(&mut out, self.w1);
        proof {
            assert(Seq::<char>::empty() + hex_of(self.w0 as int) + hex_of(self.w1 as int)
                =~= hex_of(self.w0 as int) + hex_of(self.w1 as int));
        }
        out
    }
}

} // verus!
