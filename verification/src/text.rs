//! Exact text comparison over character sequences.
use vstd::prelude::*;
use vstd::string::*;

verus! {

/// Whether two strings hold exactly the same characters.
pub fn text_eq(a: &str, b: &str) -> (same: bool)
    ensures
        same == (a@ == b@),
{
    let n = a.unicode_len();
    if n != b.unicode_len() {
        return false;
    }
    let mut i: usize = 0;
    while i < n
        invariant
            n == a@.len(),
            n == b@.len(),
            i <= n,
            forall|j: int| 0 <= j < i ==> a@[j] == b@[j],
        decreases n - i,
    {
        if a.get_char(i) != b.get_char(i) {
            return false;
        }
        i = i + 1;
    }
    assert(a@ =~= b@);
    true
}

/// Lowercase hexadecimal digit for a nibble.
pub open spec fn hex_char(d: nat) -> char {
    seq!['0', '1', '2', '3', '4', '5', '6', '7', '8', '9', 'a', 'b', 'c', 'd', 'e', 'f'][d as int]
}

/// The lowest `n` nibbles of `v`, least significant first.
pub open spec fn low_nibbles(v: nat, n: nat) -> Seq<nat>
    decreases n,
{
    if n == 0 {
        seq![]
    } else {
        seq![v % 16] + low_nibbles(v / 16, (n - 1) as nat)
    }
}

/// The 32 hexadecimal digits of a 128-bit value, most significant first.
pub open spec fn hex_digits(v: u128) -> Seq<char> {
    low_nibbles(v as nat, 32).reverse().map_values(|d: nat| hex_char(d))
}

/// The first `j` digits of `d`, with a hyphen before digits 8, 12, 16 and 20.
pub open spec fn grouped(d: Seq<char>, j: nat) -> Seq<char>
    decreases j,
{
    if j == 0 {
        seq![]
    } else {
        let k = (j - 1) as nat;
        let prior = grouped(d, k);
        if k == 8 || k == 12 || k == 16 || k == 20 {
            prior + seq!['-', d[k as int]]
        } else {
            prior + seq![d[k as int]]
        }
    }
}

/// Canonical text of a 128-bit identity: lowercase hexadecimal in the
/// 8-4-4-4-12 hyphenated grouping.
pub open spec fn identity_text_spec(v: u128) -> Seq<char> {
    grouped(hex_digits(v), 32)
}

fn hex_str(d: u8) -> (s: &'static str)
    requires
        d < 16,
    ensures
        s@ == seq![hex_char(d as nat)],
{
    proof {
        reveal_strlit("0");
        reveal_strlit("1");
        reveal_strlit("2");
        reveal_strlit("3");
        reveal_strlit("4");
        reveal_strlit("5");
        reveal_strlit("6");
        reveal_strlit("7");
        reveal_strlit("8");
        reveal_strlit("9");
        reveal_strlit("a");
        reveal_strlit("b");
        reveal_strlit("c");
        reveal_strlit("d");
        reveal_strlit("e");
        reveal_strlit("f");
    }
    if d == 0 {
        "0"
    } else if d == 1 {
        "1"
    } else if d == 2 {
        "2"
    } else if d == 3 {
        "3"
    } else if d == 4 {
        "4"
    } else if d == 5 {
        "5"
    } else if d == 6 {
        "6"
    } else if d == 7 {
        "7"
    } else if d == 8 {
        "8"
    } else if d == 9 {
        "9"
    } else if d == 10 {
        "a"
    } else if d == 11 {
        "b"
    } else if d == 12 {
        "c"
    } else if d == 13 {
        "d"
    } else if d == 14 {
        "e"
    } else {
        "f"
    }
}

/// The canonical hyphenated lowercase text of a 128-bit identity.
pub fn identity_text(v: u128) -> (text: String)
    ensures
        text@ == identity_text_spec(v),
{
    let mut nibbles: Vec<u8> = Vec::new();
    let mut rem: u128 = v;
    let mut k: usize = 0;
    while k < 32
        invariant
            k <= 32,
            nibbles@.len() == k,
            nibbles@.map_values(|d: u8| d as nat) + low_nibbles(rem as nat, (32 - k) as nat) == low_nibbles(v as nat, 32),
            forall|i: int| 0 <= i < k ==> nibbles@[i] < 16,
        decreases 32 - k,
    {
        let ghost before = nibbles@;
        let d = (rem % 16) as u8;
        nibbles.push(d);
        proof {
            let m = (32 - k) as nat;
            assert(low_nibbles(rem as nat, m) == seq![(rem as nat) % 16] + low_nibbles((rem as nat) / 16, (m - 1) as nat));
            assert(nibbles@.map_values(|d: u8| d as nat) =~= before.map_values(|d: u8| d as nat).push((rem as nat) % 16));
            assert(nibbles@.map_values(|d: u8| d as nat) + low_nibbles((rem / 16) as nat, (m - 1) as nat)
                =~= before.map_values(|d: u8| d as nat) + low_nibbles(rem as nat, m));
        }
        rem = rem / 16;
        k = k + 1;
    }
    let ghost digits = hex_digits(v);
    proof {
        assert(nibbles@.map_values(|d: u8| d as nat) =~= low_nibbles(v as nat, 32));
        assert forall|i: int| 0 <= i < 32 implies digits[i] == hex_char(nibbles@[31 - i] as nat) by {
            assert(low_nibbles(v as nat, 32).reverse()[i] == low_nibbles(v as nat, 32)[31 - i]);
            assert(nibbles@.map_values(|d: u8| d as nat)[31 - i] == nibbles@[31 - i] as nat);
        }
    }
    let mut text = String::new();
    let mut j: usize = 0;
    while j < 32
        invariant
            j <= 32,
            nibbles@.len() == 32,
            forall|i: int| 0 <= i < 32 ==> nibbles@[i] < 16,
            forall|i: int| 0 <= i < 32 ==> digits[i] == hex_char(nibbles@[31 - i] as nat),
            text@ == grouped(digits, j as nat),
        decreases 32 - j,
    {
        if j == 8 || j == 12 || j == 16 || j == 20 {
            proof {
                reveal_strlit("-");
            }
            text.append("-");
        }
        let d = nibbles[31 - j];
        text.append(hex_str(d));
        j = j + 1;
    }
    text
}

} // verus!
