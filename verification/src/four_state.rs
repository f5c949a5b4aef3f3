//! Four-state value modeling: a signal value under 0/1/X/Z logic, either a
//! single bit or a classified multi-bit string.

use vstd::prelude::*;

verus! {

use vstd::string::StrSliceExecFns;
use vstd::string::StringExecFns;

/// A single binary bit extracted from a determinate value.
pub type Bit = u8;

/// Mathematical model of a four-state value.
pub ghost enum FourStateVal {
    Bit0,
    Bit1,
    BitX,
    BitZ,
    /// Multi-bit value with no X or Z bits, carried as its hex encoding.
    MultiDeterminate(Seq<char>),
    /// Multi-bit value with at least one X bit, carried raw.
    MultiX(Seq<char>),
    /// Multi-bit value with at least one Z bit (and no X), carried raw.
    MultiZ(Seq<char>),
}

/// Four-state value of a signal: one of the four single-bit states, or a
/// multi-bit value classified by the dominant character class.
#[derive(Debug)]
pub enum FourStateBit {
    Bit0,
    Bit1,
    BitX,
    BitZ,
    MultiDeterminate(String),
    MultiX(String),
    MultiZ(String),
}

impl View for FourStateBit {
    type V = FourStateVal;

    open spec fn view(&self) -> FourStateVal {
        match self {
            FourStateBit::Bit0 => FourStateVal::Bit0,
            FourStateBit::Bit1 => FourStateVal::Bit1,
            FourStateBit::BitX => FourStateVal::BitX,
            FourStateBit::BitZ => FourStateVal::BitZ,
            FourStateBit::MultiDeterminate(s) => FourStateVal::MultiDeterminate(s@),
            FourStateBit::MultiX(s) => FourStateVal::MultiX(s@),
            FourStateBit::MultiZ(s) => FourStateVal::MultiZ(s@),
        }
    }
}

impl Clone for FourStateBit {
    fn clone(&self) -> (r: Self)
        ensures
            r == *self,
    {
        match self {
            FourStateBit::Bit0 => FourStateBit::Bit0,
            FourStateBit::Bit1 => FourStateBit::Bit1,
            FourStateBit::BitX => FourStateBit::BitX,
            FourStateBit::BitZ => FourStateBit::BitZ,
            FourStateBit::MultiDeterminate(s) => FourStateBit::MultiDeterminate(s.clone()),
            FourStateBit::MultiX(s) => FourStateBit::MultiX(s.clone()),
            FourStateBit::MultiZ(s) => FourStateBit::MultiZ(s.clone()),
        }
    }
}

impl PartialEq for FourStateBit {
    fn eq(&self, other: &Self) -> (r: bool) {
        match (self, other) {
            (FourStateBit::Bit0, FourStateBit::Bit0) => true,
            (FourStateBit::Bit1, FourStateBit::Bit1) => true,
            (FourStateBit::BitX, FourStateBit::BitX) => true,
            (FourStateBit::BitZ, FourStateBit::BitZ) => true,
            (FourStateBit::MultiDeterminate(a), FourStateBit::MultiDeterminate(b)) => *a == *b,
            (FourStateBit::MultiX(a), FourStateBit::MultiX(b)) => *a == *b,
            (FourStateBit::MultiZ(a), FourStateBit::MultiZ(b)) => *a == *b,
            _ => false,
        }
    }
}

impl vstd::std_specs::cmp::PartialEqSpecImpl for FourStateBit {
    open spec fn obeys_eq_spec() -> bool {
        true
    }

    open spec fn eq_spec(&self, other: &Self) -> bool {
        self@ == other@
    }
}

/// Spec: classification of a single character; any character other than
/// '0', '1' or 'z' is unknown.
pub open spec fn char_to_bit(c: char) -> FourStateVal {
    if c == '0' {
        FourStateVal::Bit0
    } else if c == '1' {
        FourStateVal::Bit1
    } else if c == 'z' {
        FourStateVal::BitZ
    } else {
        FourStateVal::BitX
    }
}

/// Spec: numeric weight of a bit character.
pub open spec fn bit_val(c: char) -> int {
    if c == '1' {
        1
    } else {
        0
    }
}

pub open spec fn is_binary_char(c: char) -> bool {
    c == '0' || c == '1'
}

pub open spec fn chunk_binary(s: Seq<char>) -> bool {
    forall|i: int| 0 <= i < s.len() ==> is_binary_char(s[i])
}

/// Spec: value of one 4-character chunk.  The character at index `i` carries
/// weight `2^i`: the chunk is read bit-reversed, mirroring the storage order
/// of multi-bit signals.  A chunk with any non-binary character counts as 0.
pub open spec fn nibble_val(s: Seq<char>) -> int {
    if chunk_binary(s) {
        bit_val(s[0]) + 2 * bit_val(s[1]) + 4 * bit_val(s[2]) + 8 * bit_val(s[3])
    } else {
        0
    }
}

/// Spec: uppercase hex digit character for a value in `0..16`.
pub open spec fn hex_digit_char(v: int) -> char {
    if v == 0 {
        '0'
    } else if v == 1 {
        '1'
    } else if v == 2 {
        '2'
    } else if v == 3 {
        '3'
    } else if v == 4 {
        '4'
    } else if v == 5 {
        '5'
    } else if v == 6 {
        '6'
    } else if v == 7 {
        '7'
    } else if v == 8 {
        '8'
    } else if v == 9 {
        '9'
    } else if v == 10 {
        'A'
    } else if v == 11 {
        'B'
    } else if v == 12 {
        'C'
    } else if v == 13 {
        'D'
    } else if v == 14 {
        'E'
    } else {
        'F'
    }
}

/// Spec: hex digits of a bit string whose length is a multiple of 4, one
/// digit per 4-character chunk, chunks in order.
pub open spec fn hex_chunks(s: Seq<char>) -> Seq<char>
    decreases s.len(),
{
    if s.len() < 4 {
        Seq::empty()
    } else {
        seq![hex_digit_char(nibble_val(s.take(4)))] + hex_chunks(s.skip(4))
    }
}

/// Spec: number of '0' characters prepended to reach a multiple of 4.
pub open spec fn pad_width(n: int) -> int {
    (4 - (n % 4)) % 4
}

/// Spec: the hex encoding ("0x" + digits) of a bit string, after padding at
/// the most-significant end to a multiple of 4 characters.
pub open spec fn hex_of(s: Seq<char>) -> Seq<char> {
    seq!['0', 'x'] + hex_chunks(Seq::new(pad_width(s.len() as int) as nat, |i: int| '0') + s)
}

pub open spec fn has_x_char(s: Seq<char>) -> bool {
    exists|i: int| 0 <= i < s.len() && (s[i] == 'x' || s[i] == 'X')
}

pub open spec fn has_z_char(s: Seq<char>) -> bool {
    exists|i: int| 0 <= i < s.len() && (s[i] == 'z' || s[i] == 'Z')
}

/// Spec: total classification of a raw value string.  A single character maps
/// to a single-bit state; otherwise any X character dominates, then any Z,
/// and an X/Z-free string is packed to hex.
pub open spec fn classify(s: Seq<char>) -> FourStateVal {
    if s.len() == 1 {
        char_to_bit(s[0])
    } else if has_x_char(s) {
        FourStateVal::MultiX(s)
    } else if has_z_char(s) {
        FourStateVal::MultiZ(s)
    } else {
        FourStateVal::MultiDeterminate(hex_of(s))
    }
}

/// Spec: the binary bit of a value, defined for the two determinate
/// single-bit states only.
pub open spec fn spec_to_bit(v: FourStateVal) -> Option<Bit> {
    match v {
        FourStateVal::Bit0 => Some(0u8),
        FourStateVal::Bit1 => Some(1u8),
        _ => None,
    }
}

fn hex_digit_str(v: u8) -> (r: &'static str)
    requires
        v < 16,
    ensures
        r@ == seq![hex_digit_char(v as int)],
{
    proof {
        reveal_strlit("0");
        reveal_strlit("1");
        reveal_strlit("2");
        reveal_strlit("3");
        reveal_strlit("4");
        reveal_strlit("5");
        reveal_strlit("6");
        reveal_strlit("7");
        reveal_strlit("8");
        reveal_strlit("9");
        reveal_strlit("A");
        reveal_strlit("B");
        reveal_strlit("C");
        reveal_strlit("D");
        reveal_strlit("E");
        reveal_strlit("F");
    }
    let r = match v {
        0 => "0",
        1 => "1",
        2 => "2",
        3 => "3",
        4 => "4",
        5 => "5",
        6 => "6",
        7 => "7",
        8 => "8",
        9 => "9",
        10 => "A",
        11 => "B",
        12 => "C",
        13 => "D",
        14 => "E",
        _ => "F",
    };
    proof {
        assert(r@ =~= seq![hex_digit_char(v as int)]);
    }
    r
}

impl FourStateBit {
    /// Total single-character constructor: '0', '1', 'x' and 'z' map to the
    /// four bit states; any other character becomes `BitX`.
    pub fn from_char(c: char) -> (r: Self)
        ensures
            r@ == char_to_bit(c),
    {
        match c {
            '0' => FourStateBit::Bit0,
            '1' => FourStateBit::Bit1,
            'x' => FourStateBit::BitX,
            'z' => FourStateBit::BitZ,
            _ => FourStateBit::BitX,
        }
    }

    /// Hex encoding of a bit string: pad at the most-significant end to a
    /// multiple of 4, then encode each 4-character chunk bit-reversed.
    fn bin_to_hex(bin: &str) -> (r: String)
        ensures
            r@ == hex_of(bin@),
    {
        let n = bin.unicode_len();
        let pad = (4 - (n % 4)) % 4;
        let mut padded = String::new();
        let mut i: usize = 0;
        while i < pad
            invariant
                i <= pad,
                padded@ == Seq::new(i as nat, |k: int| '0'),
            decreases pad - i,
        {
            padded.append("0");
            proof {
                reveal_strlit("0");
                assert(padded@ =~= Seq::new((i + 1) as nat, |k: int| '0'));
            }
            i = i + 1;
        }
        padded.append(bin);
        proof {
            assert(pad as int == pad_width(n as int));
            assert(padded@ =~= Seq::new(pad_width(bin@.len() as int) as nat, |k: int| '0') + bin@);
        }
        let total = padded.unicode_len();
        let mut out = String::from_str("0x");
        proof {
            reveal_strlit("0x");
            assert(out@ =~= seq!['0', 'x']);
            assert(padded@.skip(0) =~= padded@);
        }
        let mut j: usize = 0;
        while j < total
            invariant
                total == padded@.len(),
                total % 4 == 0,
                j <= total,
                j % 4 == 0,
                seq!['0', 'x'] + hex_chunks(padded@) == out@ + hex_chunks(padded@.skip(j as int)),
            decreases total - j,
        {
            let c0 = padded.as_str().get_char(j);
            let c1 = padded.as_str().get_char(j + 1);
            let c2 = padded.as_str().get_char(j + 2);
            let c3 = padded.as_str().get_char(j + 3);
            let ghost chunk = padded@.skip(j as int).take(4);
            proof {
                assert(chunk.len() == 4);
                assert(chunk[0] == c0 && chunk[1] == c1 && chunk[2] == c2 && chunk[3] == c3);
            }
            let binary = (c0 == '0' || c0 == '1') && (c1 == '0' || c1 == '1') && (c2 == '0' || c2
                == '1') && (c3 == '0' || c3 == '1');
            proof {
                if binary {
                    assert forall|k: int| 0 <= k < chunk.len() implies is_binary_char(
                        chunk[k],
                    ) by {
                        assert(k == 0 || k == 1 || k == 2 || k == 3);
                    }
                    assert(chunk_binary(chunk));
                } else {
                    assert(!chunk_binary(chunk));
                }
            }
            let v: u8 = if binary {
                (if c0 == '1' {
                    1
                } else {
                    0
                }) + (if c1 == '1' {
                    2
                } else {
                    0
                }) + (if c2 == '1' {
                    4
                } else {
                    0
                }) + (if c3 == '1' {
                    8
                } else {
                    0
                })
            } else {
                0
            };
            proof {
                assert(v as int == nibble_val(chunk));
            }
            out.append(hex_digit_str(v));
            proof {
                assert(padded@.skip(j as int).skip(4) =~= padded@.skip(j as int + 4));
                assert(hex_chunks(padded@.skip(j as int)) == seq![hex_digit_char(nibble_val(chunk))]
                    + hex_chunks(padded@.skip(j as int + 4)));
                assert(seq!['0', 'x'] + hex_chunks(padded@) =~= out@ + hex_chunks(
                    padded@.skip(j as int + 4),
                ));
            }
            j = j + 4;
        }
        proof {
            assert(padded@.skip(total as int) =~= Seq::<char>::empty());
            assert(hex_chunks(padded@.skip(total as int)) =~= Seq::<char>::empty());
            assert(out@ =~= seq!['0', 'x'] + hex_chunks(padded@));
        }
        out
    }

    /// Total classification of a raw value string.
    pub fn from_string(s: String) -> (r: Self)
        ensures
            r@ == classify(s@),
    {
        let n = s.as_str().unicode_len();
        if n == 1 {
            return Self::from_char(s.as_str().get_char(0));
        }
        let mut found_x = false;
        let mut found_z = false;
        let mut i: usize = 0;
        while i < n
            invariant
                n == s@.len(),
                i <= n,
                found_x == has_x_char(s@.take(i as int)),
                found_z == has_z_char(s@.take(i as int)),
            decreases n - i,
        {
            let c = s.as_str().get_char(i);
            let ghost pre = s@.take(i as int);
            let ghost post = s@.take(i as int + 1);
            if c == 'x' || c == 'X' {
                found_x = true;
            }
            if c == 'z' || c == 'Z' {
                found_z = true;
            }
            proof {
                assert(post =~= pre.push(s@[i as int]));
                assert(post[i as int] == s@[i as int]);
                assert forall|k: int| 0 <= k < pre.len() implies post[k] == pre[k] by {}
                if has_x_char(pre) {
                    let k = choose|k: int| 0 <= k < pre.len() && (pre[k] == 'x' || pre[k] == 'X');
                    assert(post[k] == 'x' || post[k] == 'X');
                }
                if has_z_char(pre) {
                    let k = choose|k: int| 0 <= k < pre.len() && (pre[k] == 'z' || pre[k] == 'Z');
                    assert(post[k] == 'z' || post[k] == 'Z');
                }
                if has_x_char(post) && !has_x_char(pre) {
                    let k = choose|k: int| 0 <= k < post.len() && (post[k] == 'x' || post[k] == 'X');
                    assert(k == i as int);
                }
                if has_z_char(post) && !has_z_char(pre) {
                    let k = choose|k: int| 0 <= k < post.len() && (post[k] == 'z' || post[k] == 'Z');
                    assert(k == i as int);
                }
            }
            i = i + 1;
        }
        proof {
            assert(s@.take(n as int) =~= s@);
        }
        if found_x {
            FourStateBit::MultiX(s)
        } else if found_z {
            FourStateBit::MultiZ(s)
        } else {
            let hex = Self::bin_to_hex(s.as_str());
            FourStateBit::MultiDeterminate(hex)
        }
    }

    /// The binary bit of a determinate single-bit value; `None` for X, Z and
    /// multi-bit values.
    pub fn to_bit(&self) -> (r: Option<Bit>)
        ensures
            r == spec_to_bit(self@),
    {
        match self {
            FourStateBit::Bit0 => Some(0),
            FourStateBit::Bit1 => Some(1),
            _ => None,
        }
    }
}

/// Law: single-character classification is total on characters, maps the four
/// recognized characters bijectively onto the four single-bit states, and
/// maps every other character to `BitX`.
pub proof fn lemma_char_to_bit_bijective()
    ensures
        char_to_bit('0') == FourStateVal::Bit0,
        char_to_bit('1') == FourStateVal::Bit1,
        char_to_bit('x') == FourStateVal::BitX,
        char_to_bit('z') == FourStateVal::BitZ,
        forall|c: char| c != '0' && c != '1' && c != 'z' ==> char_to_bit(c) == FourStateVal::BitX,
        forall|c1: char, c2: char|
            (c1 == '0' || c1 == '1' || c1 == 'x' || c1 == 'z') && (c2 == '0' || c2 == '1' || c2
                == 'x' || c2 == 'z') && char_to_bit(c1) == char_to_bit(c2) ==> c1 == c2,
{
}

} // verus!
