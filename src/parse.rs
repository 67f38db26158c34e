use vstd::prelude::*;

use crate::address::{composed_value, IPAddr};
use crate::text::{decimal_text, digit_char, dotted_text, quad_text};

verus! {

/// Why a CIDR text was rejected.
#[derive(Debug, Clone, Copy, PartialEq, Eq, Structural)]
pub enum ParseError {
    /// The text is not exactly one address and one prefix around a `/`.
    MalformedInput,
    /// The prefix is not a decimal number from 0 to 32.
    PrefixOutOfRange,
    /// The address is not exactly four parts around `.`.
    MalformedAddress,
    /// An octet is not a decimal number from 0 to 255.
    OctetOutOfRange,
}

/// The parts of `s` between the occurrences of `sep`, in order; one more
/// part than there are separators, empty parts included.
pub open spec fn split_on(s: Seq<char>, sep: char) -> Seq<Seq<char>>
    decreases s.len(),
{
    if s.len() == 0 {
        seq![Seq::empty()]
    } else {
        let parts = split_on(s.drop_last(), sep);
        if s.last() == sep {
            parts.push(Seq::empty())
        } else {
            parts.update(parts.len() - 1, parts.last().push(s.last()))
        }
    }
}

/// `c` is one of the decimal digits `0` to `9`.
pub open spec fn is_digit(c: char) -> bool {
    '0' <= c && c <= '9'
}

/// The number that a run of decimal digits stands for.
pub open spec fn decimal_value(s: Seq<char>) -> int
    decreases s.len(),
{
    if s.len() == 0 {
        0
    } else {
        decimal_value(s.drop_last()) * 10 + (s.last() as int - '0' as int)
    }
}

/// `s` is a non-empty run of decimal digits whose value is at most `bound`.
pub open spec fn is_number_at_most(s: Seq<char>, bound: int) -> bool {
    &&& s.len() > 0
    &&& forall|i: int| 0 <= i < s.len() ==> is_digit(#[trigger] s[i])
    &&& decimal_value(s) <= bound
}

/// What a text `a.b.c.d/p` stands for: the four octets and the prefix length,
/// or the first of the checks that fails, in the order prefix, then address
/// shape, then octets.
pub open spec fn parse_result(s: Seq<char>) -> Result<(Seq<u8>, u8), ParseError> {
    let halves = split_on(s, '/');
    if halves.len() != 2 {
        Err(ParseError::MalformedInput)
    } else if !is_number_at_most(halves[1], 32) {
        Err(ParseError::PrefixOutOfRange)
    } else {
        let parts = split_on(halves[0], '.');
        if parts.len() != 4 {
            Err(ParseError::MalformedAddress)
        } else if !(forall|i: int| 0 <= i < 4 ==> is_number_at_most(#[trigger] parts[i], 255)) {
            Err(ParseError::OctetOutOfRange)
        } else {
            Ok((Seq::new(4, |i: int| decimal_value(parts[i]) as u8), decimal_value(halves[1]) as u8))
        }
    }
}

/// The character sequences that a list of parts holds.
pub open spec fn views_of(parts: Seq<Vec<char>>) -> Seq<Seq<char>> {
    parts.map_values(|p: Vec<char>| p@)
}

proof fn lemma_digit_char(d: int)
    requires
        0 <= d < 10,
    ensures
        is_digit(digit_char(d)),
        digit_char(d) as int - '0' as int == d,
{
}

/// The decimal text of a number is a non-empty run of digits that stands for
/// the number.
proof fn lemma_decimal_text(n: nat)
    ensures
        decimal_text(n).len() > 0,
        forall|i: int| 0 <= i < decimal_text(n).len() ==> is_digit(#[trigger] decimal_text(n)[i]),
        decimal_value(decimal_text(n)) == n,
    decreases n,
{
    if n < 10 {
        lemma_digit_char(n as int);
        assert(decimal_text(n).drop_last() =~= Seq::<char>::empty());
        assert(decimal_value(Seq::<char>::empty()) == 0);
    } else {
        lemma_decimal_text(n / 10);
        lemma_digit_char((n % 10) as int);
        assert(decimal_text(n).drop_last() =~= decimal_text(n / 10));
        assert(decimal_text(n).last() == digit_char((n % 10) as int));
        assert((n / 10) * 10 + n % 10 == n);
    }
}

/// Text without the separator is one part.
proof fn lemma_split_whole(y: Seq<char>, sep: char)
    requires
        forall|i: int| 0 <= i < y.len() ==> #[trigger] y[i] != sep,
    ensures
        split_on(y, sep) == seq![y],
    decreases y.len(),
{
    if y.len() == 0 {
        assert(y =~= Seq::<char>::empty());
    } else {
        lemma_split_whole(y.drop_last(), sep);
        assert(y.drop_last().push(y.last()) =~= y);
        assert(seq![y.drop_last()].update(0, y.drop_last().push(y.last())) =~= seq![y]);
    }
}

/// A separator followed by text without one adds that text as a last part.
proof fn lemma_split_last(x: Seq<char>, y: Seq<char>, sep: char)
    requires
        forall|i: int| 0 <= i < y.len() ==> #[trigger] y[i] != sep,
    ensures
        split_on(x + seq![sep] + y, sep) == split_on(x, sep).push(y),
    decreases y.len(),
{
    let z = x + seq![sep] + y;
    if y.len() == 0 {
        assert(z.drop_last() =~= x);
        assert(y =~= Seq::<char>::empty());
    } else {
        lemma_split_last(x, y.drop_last(), sep);
        assert(y.drop_last().push(y.last()) =~= y);
        assert(z.drop_last() =~= x + seq![sep] + y.drop_last());
        assert(split_on(x, sep).push(y.drop_last()).update(
            split_on(x, sep).len() as int,
            y.drop_last().push(y.last()),
        ) =~= split_on(x, sep).push(y));
    }
}

/// Writing four octets as a dotted quad with a prefix length and parsing the
/// text gives back the octets and the prefix length; and rendering the
/// composed address gives back the dotted quad.
pub proof fn lemma_round_trip(octets: Seq<u8>, prefix: u8)
    requires
        octets.len() == 4,
        prefix <= 32,
    ensures
        parse_result(quad_text(octets) + seq!['/'] + decimal_text(prefix as nat)) == Ok::<
            (Seq<u8>, u8),
            ParseError,
        >((octets, prefix)),
        dotted_text(composed_value(octets) as u32) == quad_text(octets),
{
    let d0 = decimal_text(octets[0] as nat);
    let d1 = decimal_text(octets[1] as nat);
    let d2 = decimal_text(octets[2] as nat);
    let d3 = decimal_text(octets[3] as nat);
    let p = decimal_text(prefix as nat);
    lemma_decimal_text(octets[0] as nat);
    lemma_decimal_text(octets[1] as nat);
    lemma_decimal_text(octets[2] as nat);
    lemma_decimal_text(octets[3] as nat);
    lemma_decimal_text(prefix as nat);
    let q = quad_text(octets);
    assert forall|i: int| 0 <= i < q.len() implies #[trigger] q[i] != '/' by {
        assert(is_digit(q[i]) || q[i] == '.');
    }
    lemma_split_whole(q, '/');
    lemma_split_last(q, p, '/');
    let a01 = d0 + seq!['.'] + d1;
    let a012 = a01 + seq!['.'] + d2;
    lemma_split_whole(d0, '.');
    lemma_split_last(d0, d1, '.');
    lemma_split_last(a01, d2, '.');
    lemma_split_last(a012, d3, '.');
    let parts = split_on(q, '.');
    assert(parts =~= seq![d0, d1, d2, d3]);
    assert(Seq::new(4, |i: int| decimal_value(parts[i]) as u8) =~= octets);

    let a = octets[0];
    let b = octets[1];
    let c = octets[2];
    let d = octets[3];
    let v = composed_value(octets) as u32;
    assert(v == (a as u32) * 0x1000000 + (b as u32) * 0x10000 + (c as u32) * 0x100 + d as u32);
    assert(((v / 0x1000000) as u8) == a && ((v / 0x10000 % 0x100) as u8) == b && ((v / 0x100
        % 0x100) as u8) == c && ((v % 0x100) as u8) == d) by (bit_vector)
        requires
            v == (a as u32) * 0x1000000 + (b as u32) * 0x10000 + (c as u32) * 0x100 + d as u32,
    ;
    assert(crate::text::octets_of(v) =~= octets);
}

/// The characters of a string.
fn chars_of(s: &str) -> (r: Vec<char>)
    ensures
        r@ == s@,
{
    let n = s.unicode_len();
    let mut r: Vec<char> = Vec::new();
    let mut i: usize = 0;
    while i < n
        invariant
            n == s@.len(),
            i <= n,
            r@ == s@.take(i as int),
        decreases n - i,
    {
        r.push(s.get_char(i));
        i = i + 1;
        assert(r@ =~= s@.take(i as int));
    }
    assert(r@ =~= s@);
    r
}

/// Splits `s` at every `sep`.
fn split_chars(s: &Vec<char>, sep: char) -> (r: Vec<Vec<char>>)
    ensures
        views_of(r@) == split_on(s@, sep),
{
    let mut done: Vec<Vec<char>> = Vec::new();
    let mut cur: Vec<char> = Vec::new();
    let mut i: usize = 0;
    assert(s@.take(0) =~= Seq::<char>::empty());
    assert(views_of(done@).push(cur@) =~= split_on(s@.take(0), sep));
    while i < s.len()
        invariant
            i <= s@.len(),
            views_of(done@).push(cur@) == split_on(s@.take(i as int), sep),
        decreases s@.len() - i,
    {
        let c = s[i];
        let ghost before = views_of(done@).push(cur@);
        assert(s@.take(i + 1).drop_last() =~= s@.take(i as int));
        if c == sep {
            done.push(cur);
            cur = Vec::new();
            assert(views_of(done@).push(cur@) =~= before.push(Seq::empty()));
        } else {
            cur.push(c);
            assert(views_of(done@).push(cur@) =~= before.update(
                before.len() - 1,
                before.last().push(c),
            ));
        }
        i = i + 1;
    }
    assert(s@.take(s@.len() as int) =~= s@);
    done.push(cur);
    assert(views_of(done@) =~= split_on(s@, sep));
    done
}

/// Each prefix of a run of digits stands for at most the value of the whole.
proof fn lemma_decimal_prefix_le(s: Seq<char>, i: int)
    requires
        0 <= i <= s.len(),
        forall|j: int| 0 <= j < s.len() ==> is_digit(#[trigger] s[j]),
    ensures
        0 <= decimal_value(s.take(i)) <= decimal_value(s),
    decreases s.len(),
{
    if i == s.len() {
        assert(s.take(i) =~= s);
        lemma_decimal_nonneg(s);
    } else {
        let d = s.drop_last();
        lemma_decimal_prefix_le(d, i);
        assert(d.take(i) =~= s.take(i));
        lemma_decimal_nonneg(d);
    }
}

proof fn lemma_decimal_nonneg(s: Seq<char>)
    requires
        forall|j: int| 0 <= j < s.len() ==> is_digit(#[trigger] s[j]),
    ensures
        decimal_value(s) >= 0,
    decreases s.len(),
{
    if s.len() > 0 {
        lemma_decimal_nonneg(s.drop_last());
    }
}

/// Reads a decimal number of at most `bound`.
fn parse_decimal(digits: &Vec<char>, bound: u32) -> (r: Option<u32>)
    requires
        bound <= 255,
    ensures
        r == (if is_number_at_most(digits@, bound as int) {
            Some(decimal_value(digits@) as u32)
        } else {
            None
        }),
        r is Some ==> r->0 <= bound && r->0 == decimal_value(digits@),
{
    if digits.len() == 0 {
        return None;
    }
    let mut v: u32 = 0;
    let mut i: usize = 0;
    assert(digits@.take(0) =~= Seq::<char>::empty());
    while i < digits.len()
        invariant
            i <= digits@.len(),
            bound <= 255,
            forall|j: int| 0 <= j < i ==> is_digit(#[trigger] digits@[j]),
            v == decimal_value(digits@.take(i as int)),
            v <= bound,
        decreases digits@.len() - i,
    {
        let c = digits[i];
        if !('0' <= c && c <= '9') {
            return None;
        }
        assert(digits@.take(i + 1).drop_last() =~= digits@.take(i as int));
        v = v * 10 + (c as u32 - '0' as u32);
        i = i + 1;
        if v > bound {
            proof {
                if forall|j: int| 0 <= j < digits@.len() ==> is_digit(#[trigger] digits@[j]) {
                    lemma_decimal_prefix_le(digits@, i as int);
                }
            }
            return None;
        }
    }
    assert(digits@.take(i as int) =~= digits@);
    Some(v)
}

/// Parses a CIDR text `a.b.c.d/p` into an address and its prefix length.
/// Each octet is a decimal number from 0 to 255, the prefix one from 0 to 32.
pub fn parse_arg_to_ip(s: &String) -> (r: Result<IPAddr, ParseError>)
    ensures
        (match r {
            Ok(ip) => ip.wf() && parse_result(s@) == Ok::<(Seq<u8>, u8), ParseError>(
                (ip.addr@, ip.prefix),
            ),
            Err(e) => parse_result(s@) == Err::<(Seq<u8>, u8), ParseError>(e),
        }),
{
    let text = chars_of(s.as_str());
    let halves = split_chars(&text, '/');
    if halves.len() != 2 {
        return Err(ParseError::MalformedInput);
    }
    assert(split_on(s@, '/')[0] == halves@[0]@ && split_on(s@, '/')[1] == halves@[1]@);
    let prefix = match parse_decimal(&halves[1], 32) {
        Some(p) => p as u8,
        None => {
            return Err(ParseError::PrefixOutOfRange);
        },
    };
    let parts = split_chars(&halves[0], '.');
    if parts.len() != 4 {
        return Err(ParseError::MalformedAddress);
    }
    let ghost pv = views_of(parts@);
    assert(pv == split_on(split_on(s@, '/')[0], '.'));
    let mut octets: Vec<u8> = Vec::new();
    let mut i: usize = 0;
    while i < 4
        invariant
            parts@.len() == 4,
            pv == views_of(parts@),
            split_on(s@, '/').len() == 2,
            is_number_at_most(split_on(s@, '/')[1], 32),
            pv == split_on(split_on(s@, '/')[0], '.'),
            i <= 4,
            octets@.len() == i,
            forall|j: int| 0 <= j < i ==> is_number_at_most(#[trigger] pv[j], 255),
            forall|j: int| 0 <= j < i ==> octets@[j] == decimal_value(#[trigger] pv[j]),
        decreases 4 - i,
    {
        assert(pv[i as int] == parts@[i as int]@);
        match parse_decimal(&parts[i], 255) {
            Some(o) => octets.push(o as u8),
            None => {
                assert(!is_number_at_most(pv[i as int], 255));
                return Err(ParseError::OctetOutOfRange);
            },
        }
        i = i + 1;
    }
    let ip = IPAddr { addr: [octets[0], octets[1], octets[2], octets[3]], prefix };
    assert(ip.addr@ =~= Seq::new(4, |j: int| decimal_value(pv[j]) as u8));
    Ok(ip)
}

} // verus!
