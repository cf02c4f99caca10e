//! The addresses under which the server can be reached.

use vstd::prelude::*;
use vstd::string::StringExecFns;

verus! {

/// An address of a network interface.
#[derive(Clone, Copy, Debug, PartialEq, Eq)]
pub enum InterfaceAddr {
    /// An IPv4 address, by its four octets.
    V4(u8, u8, u8, u8),
    /// An IPv6 address.
    V6,
}

/// The digit that stands for `d`.
pub open spec fn digit(d: int) -> char {
    if d == 0 {
        '0'
    } else if d == 1 {
        '1'
    } else if d == 2 {
        '2'
    } else if d == 3 {
        '3'
    } else if d == 4 {
        '4'
    } else if d == 5 {
        '5'
    } else if d == 6 {
        '6'
    } else if d == 7 {
        '7'
    } else if d == 8 {
        '8'
    } else {
        '9'
    }
}

/// `n` written in decimal, without leading zeros.
pub open spec fn decimal(n: int) -> Seq<char>
    decreases n,
{
    if n < 10 {
        seq![digit(n)]
    } else {
        decimal(n / 10).push(digit(n % 10))
    }
}

/// An IPv4 address in dotted decimal notation.
pub open spec fn dotted(a: u8, b: u8, c: u8, d: u8) -> Seq<char> {
    decimal(a as int) + seq!['.'] + decimal(b as int) + seq!['.'] + decimal(c as int) + seq!['.']
        + decimal(d as int)
}

/// What an interface address adds to the list of local addresses: an IPv4
/// address outside the loopback range as text, anything else nothing.
pub open spec fn local_text(addr: InterfaceAddr) -> Option<Seq<char>> {
    match addr {
        InterfaceAddr::V4(a, b, c, d) => if a == 127 {
            None
        } else {
            Some(dotted(a, b, c, d))
        },
        InterfaceAddr::V6 => None,
    }
}

/// The local addresses among `addrs`, in order.
pub open spec fn local_texts(addrs: Seq<InterfaceAddr>) -> Seq<Seq<char>>
    decreases addrs.len(),
{
    if addrs.len() == 0 {
        Seq::empty()
    } else {
        let head = local_texts(addrs.drop_last());
        match local_text(addrs.last()) {
            Some(text) => head.push(text),
            None => head,
        }
    }
}

fn digit_text(d: u8) -> (text: &'static str)
    requires
        d < 10,
    ensures
        text@ == seq![digit(d as int)],
{
    proof {
        reveal_strlit("0");
        reveal_strlit("1");
        reveal_strlit("2");
        reveal_strlit("3");
        reveal_strlit("4");
        reveal_strlit("5");
        reveal_strlit("6");
        reveal_strlit("7");
        reveal_strlit("8");
        reveal_strlit("9");
    }
    let text = if d == 0 {
        "0"
    } else if d == 1 {
        "1"
    } else if d == 2 {
        "2"
    } else if d == 3 {
        "3"
    } else if d == 4 {
        "4"
    } else if d == 5 {
        "5"
    } else if d == 6 {
        "6"
    } else if d == 7 {
        "7"
    } else if d == 8 {
        "8"
    } else {
        "9"
    };
    assert(text@ =~= seq![digit(d as int)]);
    text
}

/// Appends `n` in decimal to `text`.
fn append_decimal(text: String, n: u8) -> (longer: String)
    ensures
        longer@ == text@ + decimal(n as int),
{
    let mut out = text;
    if n >= 100 {
        out = out.concat(digit_text(n / 100));
        out = out.concat(digit_text((n / 10) % 10));
        proof {
            assert(decimal(n as int / 100) == seq![digit(n as int / 100)]);
            assert((n as int / 10) / 10 == n as int / 100);
            assert(decimal(n as int / 10) == seq![digit(n as int / 100)].push(
                digit((n as int / 10) % 10),
            ));
        }
    } else if n >= 10 {
        out = out.concat(digit_text(n / 10));
        proof {
            assert(decimal(n as int / 10) == seq![digit(n as int / 10)]);
        }
    }
    out = out.concat(digit_text(n % 10));
    assert(out@ =~= text@ + decimal(n as int));
    out
}

/// Writes an IPv4 address in dotted decimal notation.
pub fn format_ipv4(a: u8, b: u8, c: u8, d: u8) -> (text: String)
    ensures
        text@ == dotted(a, b, c, d),
{
    proof {
        reveal_strlit(".");
        reveal_strlit("");
        assert("."@ =~= seq!['.']);
    }
    let mut out = append_decimal(String::from_str(""), a);
    out = append_decimal(out.concat("."), b);
    out = append_decimal(out.concat("."), c);
    out = append_decimal(out.concat("."), d);
    assert(out@ =~= dotted(a, b, c, d));
    out
}

/// Picks the addresses under which other machines can reach this one: the
/// IPv4 addresses outside the loopback range, written in dotted decimal
/// notation, in the order in which the interfaces were listed.
pub fn get_local_ips(interfaces: &Vec<InterfaceAddr>) -> (ips: Vec<String>)
    ensures
        crate::text::texts(ips@) == local_texts(interfaces@),
{
    let mut ips: Vec<String> = Vec::new();
    let mut i: usize = 0;
    while i < interfaces.len()
        invariant
            i <= interfaces@.len(),
            crate::text::texts(ips@) == local_texts(interfaces@.take(i as int)),
        decreases interfaces@.len() - i,
    {
        proof {
            assert(interfaces@.take(i as int + 1).drop_last() == interfaces@.take(i as int));
            assert(interfaces@.take(i as int + 1).last() == interfaces@[i as int]);
        }
        match interfaces[i] {
            InterfaceAddr::V4(a, b, c, d) => {
                if a != 127 {
                    let text = format_ipv4(a, b, c, d);
                    assert(crate::text::texts(ips@.push(text)) == crate::text::texts(ips@).push(text@));
                    ips.push(text);
                }
            },
            InterfaceAddr::V6 => {},
        }
        i += 1;
    }
    assert(interfaces@.take(interfaces@.len() as int) == interfaces@);
    ips
}

} // verus!
