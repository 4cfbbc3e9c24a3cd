//! Textual rendering of IPv4 addresses.
//!
//! A numeric address is the value the generator reasons about; the dotted
//! decimal text is what tabs display and what the durable rows store. The
//! renderer is verified to produce exactly the text described by
//! [`dotted_quad`].

use vstd::prelude::*;
use vstd::string::StrSliceExecFns;
use vstd::string::StringExecFns;

verus! {

/// The character for one decimal digit.
pub open spec fn digit_char(d: int) -> char {
    if d == 0 {
        '0'
    } else if d == 1 {
        '1'
    } else if d == 2 {
        '2'
    } else if d == 3 {
        '3'
    } else if d == 4 {
        '4'
    } else if d == 5 {
        '5'
    } else if d == 6 {
        '6'
    } else if d == 7 {
        '7'
    } else if d == 8 {
        '8'
    } else {
        '9'
    }
}

/// Decimal text of one octet (0 to 255), without leading zeros.
pub open spec fn dec_chars(n: int) -> Seq<char> {
    if n >= 100 {
        seq![digit_char(n / 100), digit_char((n / 10) % 10), digit_char(n % 10)]
    } else if n >= 10 {
        seq![digit_char(n / 10), digit_char(n % 10)]
    } else {
        seq![digit_char(n)]
    }
}

/// The octets of a 32-bit address, most significant first.
pub open spec fn octet(a: u32, k: int) -> int {
    if k == 0 {
        (a as int) / 0x1000000
    } else if k == 1 {
        ((a as int) / 0x10000) % 256
    } else if k == 2 {
        ((a as int) / 0x100) % 256
    } else {
        (a as int) % 256
    }
}

/// Dotted decimal text of a 32-bit address.
pub open spec fn dotted_quad(a: u32) -> Seq<char> {
    dec_chars(octet(a, 0)) + seq!['.'] + dec_chars(octet(a, 1)) + seq!['.'] + dec_chars(
        octet(a, 2),
    ) + seq!['.'] + dec_chars(octet(a, 3))
}

fn digit_str(d: u8) -> (r: &'static str)
    requires
        d < 10,
    ensures
        r@ =~= seq![digit_char(d as int)],
{
    proof {
        reveal_strlit("0");
        reveal_strlit("1");
        reveal_strlit("2");
        reveal_strlit("3");
        reveal_strlit("4");
        reveal_strlit("5");
        reveal_strlit("6");
        reveal_strlit("7");
        reveal_strlit("8");
        reveal_strlit("9");
    }
    match d {
        0 => "0",
        1 => "1",
        2 => "2",
        3 => "3",
        4 => "4",
        5 => "5",
        6 => "6",
        7 => "7",
        8 => "8",
        _ => "9",
    }
}

fn push_octet(s: &mut String, n: u8)
    ensures
        final(s)@ == old(s)@ + dec_chars(n as int),
{
    if n >= 100 {
        s.append(digit_str(n / 100));
        s.append(digit_str((n / 10) % 10));
        s.append(digit_str(n % 10));
    } else if n >= 10 {
        s.append(digit_str(n / 10));
        s.append(digit_str(n % 10));
    } else {
        s.append(digit_str(n));
    }
}

/// Render a 32-bit address as dotted decimal text.
pub fn format_ipv4(a: u32) -> (r: String)
    ensures
        r@ == dotted_quad(a),
{
    proof {
        reveal_strlit(".");
    }
    let o0: u8 = (a / 0x1000000) as u8;
    let o1: u8 = ((a / 0x10000) % 256) as u8;
    let o2: u8 = ((a / 0x100) % 256) as u8;
    let o3: u8 = (a % 256) as u8;
    let mut s = String::new();
    push_octet(&mut s, o0);
    s.append(".");
    push_octet(&mut s, o1);
    s.append(".");
    push_octet(&mut s, o2);
    s.append(".");
    push_octet(&mut s, o3);
    assert(s@ =~= dotted_quad(a));
    s
}


/// Parse canonical dotted decimal text back into a numeric address.
///
/// Strict: `Some(a)` is returned exactly when the text is the canonical
/// rendering of `a` (no leading zeros, four octets); anything else is
/// rejected.
pub fn parse_ipv4(s: &str) -> (r: Option<u32>)
    ensures
        match r {
            Some(a) => s@ == dotted_quad(a),
            None => true,
        },
{
    let n = s.unicode_len();
    let mut octets: Vec<u32> = Vec::new();
    let mut value: u32 = 0;
    let mut digits: u32 = 0;
    let mut i: usize = 0;
    while i < n
        invariant
            n == s@.len(),
            i <= n,
            value <= 255,
            digits <= 3,
            octets@.len() <= 3,
            forall|k: int| 0 <= k < octets@.len() ==> (#[trigger] octets@[k]) <= 255,
        decreases n - i,
    {
        let c = s.get_char(i);
        let code = c as u32;
        if code >= 48 && code <= 57 {
            if digits == 3 {
                return None;
            }
            let d = code - 48;
            if value > 25 || (value == 25 && d > 5) {
                return None;
            }
            value = value * 10 + d;
            digits = digits + 1;
        } else if code == 46 {
            if digits == 0 || octets.len() == 3 {
                return None;
            }
            octets.push(value);
            value = 0;
            digits = 0;
        } else {
            return None;
        }
        i = i + 1;
    }
    if digits == 0 || octets.len() != 3 {
        return None;
    }
    octets.push(value);
    let a: u32 = octets[0] * 0x1000000 + octets[1] * 0x10000 + octets[2] * 0x100 + octets[3];
    let rendered = format_ipv4(a);
    if crate::generator::str_eq(s, rendered.as_str()) {
        Some(a)
    } else {
        None
    }
}

} // verus!
