//! IPv4 socket addresses, written and read the way the programs do.

use vstd::prelude::*;
use crate::text::{
    lemma_parse_unsigned_range,
    append_decimal, chars_of, decimal, is_digit, lemma_decimal_digits, lemma_parse_decimal,
    lemma_split_append_plain, lemma_split_append_sep, parse_u8, parse_unsigned, split, split_chars,
    views,
};

verus! {

/// An IPv4 host: its four octets, most significant first.
#[derive(Clone, Copy, Debug, PartialEq, Eq, Structural)]
pub struct Ipv4Addr {
    pub a: u8,
    pub b: u8,
    pub c: u8,
    pub d: u8,
}

impl Ipv4Addr {
    pub fn new(a: u8, b: u8, c: u8, d: u8) -> (ip: Ipv4Addr)
        ensures
            ip == (Ipv4Addr { a, b, c, d }),
    {
        Ipv4Addr { a, b, c, d }
    }
}

/// An IPv4 socket address: a host and a port.
#[derive(Clone, Copy, Debug, PartialEq, Eq, Structural)]
pub struct SocketAddrV4 {
    pub ip: Ipv4Addr,
    pub port: u16,
}

/// The dotted-decimal writing of an IPv4 host, such as `127.0.0.1`.
pub open spec fn ip_text(ip: Ipv4Addr) -> Seq<char> {
    decimal(ip.a as nat) + seq!['.'] + decimal(ip.b as nat) + seq!['.'] + decimal(ip.c as nat)
        + seq!['.'] + decimal(ip.d as nat)
}

/// The four octets that the first four dot-separated pieces of `s` name, when
/// there are at least four pieces and each of those four reads as a `u8`;
/// pieces after the fourth are not looked at.
pub open spec fn host_of(s: Seq<char>) -> Option<Ipv4Addr> {
    let f = split(s, '.');
    if f.len() >= 4 && parse_unsigned(f[0], 255) is Some && parse_unsigned(f[1], 255) is Some
        && parse_unsigned(f[2], 255) is Some && parse_unsigned(f[3], 255) is Some {
        Some(
            Ipv4Addr {
                a: parse_unsigned(f[0], 255).unwrap() as u8,
                b: parse_unsigned(f[1], 255).unwrap() as u8,
                c: parse_unsigned(f[2], 255).unwrap() as u8,
                d: parse_unsigned(f[3], 255).unwrap() as u8,
            },
        )
    } else {
        None
    }
}

impl SocketAddrV4 {
    pub fn new(ip: Ipv4Addr, port: u16) -> (a: SocketAddrV4)
        ensures
            a.ip == ip,
            a.port == port,
    {
        SocketAddrV4 { ip, port }
    }

    /// The writing `a.b.c.d:port`.
    pub open spec fn text(self) -> Seq<char> {
        ip_text(self.ip) + seq![':'] + decimal(self.port as nat)
    }

    /// Writes the address as `a.b.c.d:port`.
    pub fn to_string(&self) -> (s: String)
        ensures
            s@ == self.text(),
            s@ == decimal(self.ip.a as nat) + seq!['.'] + decimal(self.ip.b as nat) + seq!['.']
                + decimal(self.ip.c as nat) + seq!['.'] + decimal(self.ip.d as nat) + seq![':']
                + decimal(self.port as nat),
    {
        let mut s = String::new();
        append_ip(&mut s, self.ip);
        proof {
            reveal_strlit(":");
        }
        s.append(":");
        append_decimal(&mut s, self.port as u16);
        assert(s@ =~= self.text());
        s
    }
}

/// Appends the dotted-decimal writing of `ip` to `out`.
pub fn append_ip(out: &mut String, ip: Ipv4Addr)
    ensures
        final(out)@ == old(out)@ + ip_text(ip),
{
    proof {
        reveal_strlit(".");
    }
    append_decimal(out, ip.a as u16);
    out.append(".");
    append_decimal(out, ip.b as u16);
    out.append(".");
    append_decimal(out, ip.c as u16);
    out.append(".");
    append_decimal(out, ip.d as u16);
    assert(out@ =~= old(out)@ + ip_text(ip));
}

/// Reads a host the way the observer's configuration does: the text is cut
/// at each `.` and the first four pieces must each read as a `u8`.
pub fn parse_host(arg: &str) -> (r: Option<Ipv4Addr>)
    ensures
        r == host_of(arg@),
{
    let chars = chars_of(arg);
    let pieces = split_chars(&chars, '.');
    if pieces.len() < 4 {
        return None;
    }
    assert(views(pieces@)[0] == pieces@[0]@);
    assert(views(pieces@)[1] == pieces@[1]@);
    assert(views(pieces@)[2] == pieces@[2]@);
    assert(views(pieces@)[3] == pieces@[3]@);
    let a = parse_u8(&pieces[0]);
    let b = parse_u8(&pieces[1]);
    let c = parse_u8(&pieces[2]);
    let d = parse_u8(&pieces[3]);
    match (a, b, c, d) {
        (Some(a), Some(b), Some(c), Some(d)) => Some(Ipv4Addr { a, b, c, d }),
        _ => None,
    }
}

/// A writing of a number holds no `.` and no `:`.
proof fn lemma_decimal_plain(n: nat, sep: char)
    requires
        !is_digit(sep),
    ensures
        !decimal(n).contains(sep),
{
    lemma_decimal_digits(n);
    if decimal(n).contains(sep) {
        let i = choose|i: int| 0 <= i < decimal(n).len() && decimal(n)[i] == sep;
        assert(is_digit(decimal(n)[i]));
    }
}

/// A host is read only from text with at least four dot-separated pieces,
/// and its octets are what the first four pieces read as, in order.
pub proof fn lemma_host_from_pieces(s: Seq<char>)
    ensures
        split(s, '.').len() < 4 ==> host_of(s) is None,
        host_of(s) matches Some(ip) ==> {
            &&& parse_unsigned(split(s, '.')[0], 255) == Some(ip.a as int)
            &&& parse_unsigned(split(s, '.')[1], 255) == Some(ip.b as int)
            &&& parse_unsigned(split(s, '.')[2], 255) == Some(ip.c as int)
            &&& parse_unsigned(split(s, '.')[3], 255) == Some(ip.d as int)
        },
{
    let f = split(s, '.');
    if f.len() >= 4 {
        lemma_parse_unsigned_range(f[0], 255);
        lemma_parse_unsigned_range(f[1], 255);
        lemma_parse_unsigned_range(f[2], 255);
        lemma_parse_unsigned_range(f[3], 255);
    }
}

/// Reading back the dotted-decimal writing of a host gives the host.
pub proof fn lemma_host_round_trip(ip: Ipv4Addr)
    ensures
        host_of(ip_text(ip)) == Some(ip),
        split(ip_text(ip), '.') == seq![
            decimal(ip.a as nat),
            decimal(ip.b as nat),
            decimal(ip.c as nat),
            decimal(ip.d as nat),
        ],
{
    let d0 = decimal(ip.a as nat);
    let d1 = decimal(ip.b as nat);
    let d2 = decimal(ip.c as nat);
    let d3 = decimal(ip.d as nat);
    let e = Seq::<char>::empty();
    lemma_decimal_plain(ip.a as nat, '.');
    lemma_decimal_plain(ip.b as nat, '.');
    lemma_decimal_plain(ip.c as nat, '.');
    lemma_decimal_plain(ip.d as nat, '.');
    assert(split(e, '.') =~= seq![e]);
    lemma_split_append_plain(e, d0, '.');
    assert(e + d0 =~= d0);
    assert(split(d0, '.') =~= seq![d0]);
    let t1 = d0 + seq!['.'];
    lemma_split_append_sep(d0, '.');
    assert(d0.push('.') =~= t1);
    lemma_split_append_plain(t1, d1, '.');
    assert(split(t1 + d1, '.') =~= seq![d0, d1]);
    let t2 = t1 + d1 + seq!['.'];
    lemma_split_append_sep(t1 + d1, '.');
    assert((t1 + d1).push('.') =~= t2);
    lemma_split_append_plain(t2, d2, '.');
    assert(split(t2 + d2, '.') =~= seq![d0, d1, d2]);
    let t3 = t2 + d2 + seq!['.'];
    lemma_split_append_sep(t2 + d2, '.');
    assert((t2 + d2).push('.') =~= t3);
    lemma_split_append_plain(t3, d3, '.');
    assert(t3 + d3 =~= ip_text(ip));
    assert(split(ip_text(ip), '.') =~= seq![d0, d1, d2, d3]);
    lemma_parse_decimal(ip.a as nat, 255);
    lemma_parse_decimal(ip.b as nat, 255);
    lemma_parse_decimal(ip.c as nat, 255);
    lemma_parse_decimal(ip.d as nat, 255);
}

} // verus!
