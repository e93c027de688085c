//! Hexadecimal rendering of byte strings.

use vstd::prelude::*;
use vstd::string::*;

verus! {

/// Longest byte string that is shown in full; longer ones keep only their ends.
pub const FULL_LIMIT: usize = 1027;

/// Number of bytes kept at each end of a shortened rendering.
pub const EDGE: usize = 512;

/// The lower-case hexadecimal digit of a nibble.
pub open spec fn hex_digit(n: u8) -> char {
    if n < 10 { (('0' as u8) + n) as char } else { (('a' as u8) + (n - 10)) as char }
}

/// Two lower-case hexadecimal digits for every byte, most significant first.
pub open spec fn hex_seq(b: Seq<u8>) -> Seq<char>
    decreases b.len(),
{
    if b.len() == 0 {
        Seq::empty()
    } else {
        hex_seq(b.drop_last()) + seq![hex_digit(b.last() / 16), hex_digit(b.last() % 16)]
    }
}

/// What `HexDisplay::to_string` shows: everything when short, else both ends around "...".
pub open spec fn display_seq(b: Seq<u8>) -> Seq<char> {
    if b.len() < FULL_LIMIT {
        hex_seq(b)
    } else {
        hex_seq(b.subrange(0, EDGE as int)) + seq!['.', '.', '.'] + hex_seq(
            b.subrange(b.len() - EDGE, b.len() as int),
        )
    }
}

/// The displays of all byte strings, separated by ", ".
pub open spec fn joined_seq(items: Seq<Vec<u8>>) -> Seq<char>
    decreases items.len(),
{
    if items.len() == 0 {
        Seq::empty()
    } else if items.len() == 1 {
        display_seq(items[0]@)
    } else {
        joined_seq(items.drop_last()) + seq![',', ' '] + display_seq(items.last()@)
    }
}

/// A byte string shown as hexadecimal.
pub struct HexDisplay<'a>(pub &'a [u8]);

impl<'a> HexDisplay<'a> {
    pub fn from(b: &'a [u8]) -> (r: Self)
        ensures
            r.0@ == b@,
    {
        HexDisplay(b)
    }

    /// The display form: full hex below `FULL_LIMIT` bytes, else the first and
    /// last `EDGE` bytes joined by "...".
    pub fn to_string(&self) -> (r: String)
        ensures
            r@ == display_seq(self.0@),
    {
        let b = self.0;
        let mut s = String::new();
        if b.len() < FULL_LIMIT {
            push_hex_range(&mut s, b, 0, b.len());
            proof {
                assert(b@.subrange(0, b@.len() as int) =~= b@);
                assert(s@ =~= display_seq(b@));
            }
        } else {
            push_hex_range(&mut s, b, 0, EDGE);
            proof {
                reveal_strlit("...");
            }
            s.append("...");
            push_hex_range(&mut s, b, b.len() - EDGE, b.len());
            proof {
                assert(s@ =~= display_seq(b@));
            }
        }
        s
    }

    /// The debug form: every byte in hex, with no shortening.
    pub fn debug_string(&self) -> (r: String)
        ensures
            r@ == hex_seq(self.0@),
    {
        let mut s = String::new();
        push_hex_range(&mut s, self.0, 0, self.0.len());
        proof {
            assert(self.0@.subrange(0, self.0@.len() as int) =~= self.0@);
        }
        s
    }
}

/// The one-character string of a hexadecimal digit.
fn digit_str(n: u8) -> (r: &'static str)
    requires
        n < 16,
    ensures
        r@ == seq![hex_digit(n)],
{
    proof {
        reveal_strlit("0");
        reveal_strlit("1");
        reveal_strlit("2");
        reveal_strlit("3");
        reveal_strlit("4");
        reveal_strlit("5");
        reveal_strlit("6");
        reveal_strlit("7");
        reveal_strlit("8");
        reveal_strlit("9");
        reveal_strlit("a");
        reveal_strlit("b");
        reveal_strlit("c");
        reveal_strlit("d");
        reveal_strlit("e");
        reveal_strlit("f");
    }
    match n {
        0 => "0",
        1 => "1",
        2 => "2",
        3 => "3",
        4 => "4",
        5 => "5",
        6 => "6",
        7 => "7",
        8 => "8",
        9 => "9",
        10 => "a",
        11 => "b",
        12 => "c",
        13 => "d",
        14 => "e",
        _ => "f",
    }
}

/// Appends the hex of `b[lo..hi]` to `s`.
fn push_hex_range(s: &mut String, b: &[u8], lo: usize, hi: usize)
    requires
        lo <= hi <= b@.len(),
    ensures
        final(s)@ == old(s)@ + hex_seq(b@.subrange(lo as int, hi as int)),
{
    let mut i = lo;
    proof {
        assert(b@.subrange(lo as int, lo as int) =~= Seq::<u8>::empty());
        assert(old(s)@ + Seq::<char>::empty() =~= old(s)@);
    }
    while i < hi
        invariant
            lo <= i <= hi <= b@.len(),
            s@ == old(s)@ + hex_seq(b@.subrange(lo as int, i as int)),
        decreases hi - i,
    {
        let byte = b[i];
        let pre = Ghost(s@);
        s.append(digit_str(byte / 16));
        s.append(digit_str(byte % 16));
        proof {
            let sub = b@.subrange(lo as int, i + 1);
            assert(sub.drop_last() =~= b@.subrange(lo as int, i as int));
            assert(sub.last() == byte);
            assert(s@ =~= old(s)@ + hex_seq(sub));
        }
        i = i + 1;
    }
}

/// The display forms of all byte strings, joined by ", ".
pub fn hex_fmt_many(items: &[Vec<u8>]) -> (r: String)
    ensures
        r@ == joined_seq(items@),
{
    let mut s = String::new();
    let mut i: usize = 0;
    proof {
        reveal_strlit(", ");
        assert(items@.subrange(0, 0) =~= Seq::<Vec<u8>>::empty());
    }
    while i < items.len()
        invariant
            i <= items@.len(),
            s@ == joined_seq(items@.subrange(0, i as int)),
        decreases items@.len() - i,
    {
        let one = HexDisplay::from(items[i].as_slice()).to_string();
        if i > 0 {
            proof {
                reveal_strlit(", ");
            }
            s.append(", ");
        }
        s.append(one.as_str());
        proof {
            let sub = items@.subrange(0, i + 1);
            assert(sub.drop_last() =~= items@.subrange(0, i as int));
            assert(sub.last() == items@[i as int]);
            assert(one@ == display_seq(items@[i as int]@));
            if i == 0 {
                assert(sub.len() == 1);
                assert(sub[0] == items@[0]);
            }
            assert(s@ =~= joined_seq(sub));
        }
        i = i + 1;
    }
    proof {
        assert(items@.subrange(0, items@.len() as int) =~= items@);
    }
    s
}

} // verus!
