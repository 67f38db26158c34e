use vstd::arithmetic::div_mod::lemma_fundamental_div_mod;
use vstd::arithmetic::mul::{lemma_mul_inequality, lemma_mul_strict_inequality_converse};
use vstd::arithmetic::power2::{
    lemma2_to64, lemma_pow2_adds, lemma_pow2_pos, lemma_pow2_strictly_increases, pow2,
};
use vstd::bits::{lemma_u32_pow2_no_overflow, lemma_u32_shl_is_mul, lemma_u32_shr_is_div};
use vstd::prelude::*;

use crate::text::{dotted_text, push_decimal};

verus! {

/// The value of four octets read as one big-endian 32-bit number.
pub open spec fn composed_value(octets: Seq<u8>) -> int {
    octets[0] as int * 0x1000000 + octets[1] as int * 0x10000 + octets[2] as int * 0x100
        + octets[3] as int
}

/// The value of the first `n` octets read as one big-endian number.
pub open spec fn leading_value(octets: Seq<u8>, n: int) -> int
    decreases n,
{
    if n <= 0 {
        0
    } else {
        leading_value(octets, n - 1) * 0x100 + octets[n - 1] as int
    }
}

/// An IPv4 address, octets most significant first, with a prefix length.
#[derive(Debug, PartialEq, Eq)]
pub struct IPAddr {
    pub addr: [u8; 4],
    pub prefix: u8,
}

impl IPAddr {
    /// The prefix length is at most 32.
    pub open spec fn wf(&self) -> bool {
        self.prefix <= 32
    }

    /// The address as one 32-bit number.
    pub open spec fn value(&self) -> int {
        composed_value(self.addr@)
    }

    /// The network address: the address with its host bits clear.
    pub open spec fn network(&self) -> int {
        network_of(self.value(), self.prefix)
    }

    /// The first usable host: the one after the network address.
    pub open spec fn first_host(&self) -> int {
        self.network() + 1
    }

    /// The last usable host: the one before the broadcast address.
    pub open spec fn last_host(&self) -> int {
        self.network() + block_size(self.prefix) - 2
    }

    /// The broadcast address: the address with all its host bits set.
    pub open spec fn broadcast(&self) -> int {
        self.network() + block_size(self.prefix) - 1
    }

    /// Packs the octets into one 32-bit number, octet 0 in bits 31 to 24.
    pub fn compose(&self) -> (r: u32)
        ensures
            r == self.value(),
    {
        let mut composed_addr: u32 = 0;
        let mut i: usize = 0;
        while i < 4
            invariant
                0 <= i <= 4,
                composed_addr == leading_value(self.addr@, i as int),
                composed_addr < pow2_bits(i as int),
            decreases 4 - i,
        {
            let octet = self.addr[i];
            let shifted = composed_addr << 8u32;
            proof {
                lemma_shift_in_octet(composed_addr, octet);
            }
            composed_addr = shifted | octet as u32;
            i = i + 1;
        }
        proof {
            reveal_with_fuel(leading_value, 5);
        }
        composed_addr
    }

    /// The network address as a number: the composed address under the mask.
    pub fn generate_network_addr(&self) -> (r: u32)
        requires
            self.wf(),
        ensures
            r == self.network(),
    {
        let u32_addr = self.compose();
        let mask = network_mask(self.prefix);
        proof {
            lemma_and_mask(u32_addr, self.prefix, mask);
        }
        u32_addr & mask
    }

    /// The number of host addresses beside the network address: the block
    /// size less one, as a mask of the host bits.
    fn host_mask(&self) -> (r: u32)
        requires
            self.wf(),
        ensures
            r == block_size(self.prefix) - 1,
    {
        let mask = network_mask(self.prefix);
        let host_mask = !mask;
        assert(host_mask == 0xffffffffu32 - mask) by (bit_vector)
            requires
                host_mask == !mask,
        ;
        proof {
            lemma2_to64();
        }
        host_mask
    }

    /// Writes a 32-bit number as a dotted quad, its octets taken from bits 31
    /// to 24, 23 to 16, 15 to 8 and 7 to 0.
    pub fn get_humanreadable_addr(&self, ip: u32) -> (r: String)
        ensures
            r@ == dotted_text(ip),
    {
        let octet_1st = ((ip >> 24u32) & 0xffu32) as u8;
        let octet_2nd = ((ip >> 16u32) & 0xffu32) as u8;
        let octet_3rd = ((ip >> 8u32) & 0xffu32) as u8;
        let octet_4th = (ip & 0xffu32) as u8;
        assert(((ip >> 24u32) & 0xffu32) == ip / 0x1000000) by (bit_vector);
        assert(((ip >> 16u32) & 0xffu32) == ip / 0x10000 % 0x100) by (bit_vector);
        assert(((ip >> 8u32) & 0xffu32) == ip / 0x100 % 0x100) by (bit_vector);
        assert((ip & 0xffu32) == ip % 0x100) by (bit_vector);
        let mut out = String::new();
        push_decimal(&mut out, octet_1st);
        out.append(".");
        push_decimal(&mut out, octet_2nd);
        out.append(".");
        push_decimal(&mut out, octet_3rd);
        out.append(".");
        push_decimal(&mut out, octet_4th);
        proof {
            reveal_strlit(".");
        }
        assert(out@ =~= dotted_text(ip));
        out
    }

    /// The network address as a dotted quad.
    pub fn get_network_addr(&self) -> (r: String)
        requires
            self.wf(),
        ensures
            0 <= self.network() < 0x100000000,
            r@ == dotted_text(self.network() as u32),
    {
        let ip = self.generate_network_addr();
        self.get_humanreadable_addr(ip)
    }

    /// The first usable host as a dotted quad; `None` for prefix lengths 31
    /// and 32, whose blocks have no usable host.
    pub fn get_hosts_first_addr(&self) -> (r: Option<String>)
        requires
            self.wf(),
        ensures
            r is Some <==> self.prefix <= 30,
            r is Some ==> 0 <= self.first_host() < 0x100000000 && r->0@ == dotted_text(
                self.first_host() as u32,
            ),
    {
        if self.prefix > 30 {
            return None;
        }
        let ip = self.generate_network_addr();
        proof {
            lemma_block_fits(self.value() as u32, self.prefix);
            lemma2_to64();
            lemma_pow2_strictly_increases(1, host_bits(self.prefix));
        }
        Some(self.get_humanreadable_addr(ip + 1))
    }

    /// The last usable host as a dotted quad; `None` for prefix lengths 31
    /// and 32, whose blocks have no usable host.
    pub fn get_hosts_last_addr(&self) -> (r: Option<String>)
        requires
            self.wf(),
        ensures
            r is Some <==> self.prefix <= 30,
            r is Some ==> 0 <= self.last_host() < 0x100000000 && r->0@ == dotted_text(
                self.last_host() as u32,
            ),
    {
        if self.prefix > 30 {
            return None;
        }
        let ip = self.generate_network_addr();
        let host_mask = self.host_mask();
        proof {
            lemma_block_fits(self.value() as u32, self.prefix);
            lemma2_to64();
            lemma_pow2_strictly_increases(1, host_bits(self.prefix));
        }
        Some(self.get_humanreadable_addr(ip + (host_mask - 1)))
    }

    /// The broadcast address as a dotted quad. Under prefix length 32 it is the
    /// address itself.
    pub fn get_broadcast_addr(&self) -> (r: String)
        requires
            self.wf(),
        ensures
            0 <= self.broadcast() < 0x100000000,
            r@ == dotted_text(self.broadcast() as u32),
    {
        let ip = self.generate_network_addr();
        let host_mask = self.host_mask();
        proof {
            lemma_block_fits(self.value() as u32, self.prefix);
            lemma2_to64();
        }
        self.get_humanreadable_addr(ip + host_mask)
    }

    /// The number of usable host addresses; 0 for prefix lengths 31 and 32,
    /// whose blocks hold no address besides network and broadcast.
    pub fn get_hosts_addr_num(&self) -> (r: u32)
        requires
            self.wf(),
        ensures
            r == hosts_count_of(self.prefix),
    {
        let host_mask = self.host_mask();
        if self.prefix >= 31 {
            0
        } else {
            proof {
                lemma2_to64();
                lemma_pow2_strictly_increases(1, host_bits(self.prefix));
            }
            host_mask - 1
        }
    }
}

/// The number of host bits under a prefix length.
pub open spec fn host_bits(prefix: u8) -> nat {
    (32 - prefix) as nat
}

/// The number of addresses in a block under a prefix length.
pub open spec fn block_size(prefix: u8) -> nat {
    pow2(host_bits(prefix))
}

/// The network mask: the top `prefix` bits set, the host bits clear.
pub open spec fn mask_value(prefix: u8) -> int {
    pow2(32) - block_size(prefix)
}

/// The first address of the block that holds `v`: `v` with its host bits clear.
pub open spec fn network_of(v: int, prefix: u8) -> int {
    (v / block_size(prefix) as int) * block_size(prefix)
}

/// The number of usable hosts: the block without its network and broadcast
/// addresses, and none where the block has fewer than four addresses.
pub open spec fn hosts_count_of(prefix: u8) -> int {
    if prefix <= 30 {
        block_size(prefix) - 2
    } else {
        0
    }
}

/// The mask with the top `prefix` bits set. Prefix lengths 0 and 32 are
/// handled apart, so that no shift is ever by 32.
pub fn network_mask(prefix: u8) -> (r: u32)
    requires
        prefix <= 32,
    ensures
        r == mask_value(prefix),
{
    proof {
        lemma2_to64();
    }
    if prefix == 0 {
        0
    } else if prefix == 32 {
        u32::MAX
    } else {
        let shift: u32 = 32 - prefix as u32;
        proof {
            lemma_u32_pow2_no_overflow(shift as nat);
            lemma_u32_shl_is_mul(1, shift);
        }
        let block: u32 = 1u32 << shift;
        let low: u32 = block - 1;
        assert(!low == 0xffffffffu32 - low) by (bit_vector);
        !low
    }
}

/// Clearing the host bits of `v` with the mask keeps the whole blocks.
proof fn lemma_and_mask(v: u32, prefix: u8, m: u32)
    requires
        prefix <= 32,
        m == mask_value(prefix),
    ensures
        v & m == network_of(v as int, prefix),
{
    lemma2_to64();
    let s = 32 - prefix;
    if prefix == 0 {
        assert(v & 0u32 == 0u32) by (bit_vector);
    } else if prefix == 32 {
        assert(v & 0xffffffffu32 == v) by (bit_vector);
    } else {
        let sh: u32 = s as u32;
        let b = pow2(sh as nat) as int;
        let vi = v as int;
        lemma_u32_pow2_no_overflow(sh as nat);
        lemma_u32_shl_is_mul(1, sh);
        assert(m == 0xffffffffu32 - ((1u32 << sh) - 1u32));
        assert(v & ((0xffffffffu32 - ((1u32 << sh) - 1u32)) as u32) == (v >> sh) << sh)
            by (bit_vector)
            requires
                sh < 32,
        ;
        lemma_u32_shr_is_div(v, sh);
        lemma_fundamental_div_mod(vi, b);
        assert((vi / b) * b <= vi) by (nonlinear_arith)
            requires
                vi == b * (vi / b) + vi % b,
                vi % b >= 0,
        ;
        lemma_u32_shl_is_mul(v >> sh, sh);
    }
}

/// A block never runs past the end of the address space.
proof fn lemma_block_fits(v: u32, prefix: u8)
    requires
        prefix <= 32,
    ensures
        0 <= network_of(v as int, prefix),
        network_of(v as int, prefix) <= v,
        network_of(v as int, prefix) + block_size(prefix) <= pow2(32),
{
    let s = host_bits(prefix);
    let b = block_size(prefix) as int;
    let q = pow2((32 - s) as nat) as int;
    let vi = v as int;
    let k = vi / b;
    lemma2_to64();
    lemma_pow2_pos(s);
    lemma_pow2_pos((32 - s) as nat);
    lemma_pow2_adds((32 - s) as nat, s);
    lemma_fundamental_div_mod(vi, b);
    assert(k * b <= vi && 0 <= k * b) by (nonlinear_arith)
        requires
            vi == b * k + vi % b,
            0 <= vi % b,
            0 <= vi,
            b > 0,
    ;
    assert(k * b < q * b);
    lemma_mul_strict_inequality_converse(k, q, b);
    lemma_mul_inequality(k + 1, q, b);
    assert((k + 1) * b == k * b + b) by (nonlinear_arith);
}

/// Under a prefix length of at most 30 a block is laid out in order: the
/// network address; the first usable host, one above it; the last usable
/// host; the broadcast address, one above that. The usable hosts run from the
/// first to the last, as many as the host count says, and all of these are
/// 32-bit numbers.
pub proof fn lemma_block_order(ip: IPAddr)
    requires
        ip.wf(),
        ip.prefix <= 30,
    ensures
        0 <= ip.network(),
        ip.network() < ip.first_host(),
        ip.first_host() <= ip.last_host(),
        ip.last_host() < ip.broadcast(),
        ip.broadcast() < 0x100000000,
        ip.first_host() == ip.network() + 1,
        ip.broadcast() == ip.last_host() + 1,
        ip.last_host() - ip.first_host() + 1 == hosts_count_of(ip.prefix),
{
    lemma_block_fits(ip.value() as u32, ip.prefix);
    lemma2_to64();
    lemma_pow2_strictly_increases(1, host_bits(ip.prefix));
}

/// The network address depends only on the top `prefix` bits of the address
/// (its value divided by the block size): two addresses that agree there have
/// the same network address, whatever their host bits hold.
pub proof fn lemma_network_from_top_bits(a: IPAddr, b: IPAddr)
    requires
        a.wf(),
        b.wf(),
        a.prefix == b.prefix,
        a.value() / block_size(a.prefix) as int == b.value() / block_size(b.prefix) as int,
    ensures
        a.network() == b.network(),
{
}

/// The network address of a network address, under the same prefix length,
/// is itself.
pub proof fn lemma_network_idempotent(a: IPAddr, b: IPAddr)
    requires
        a.wf(),
        b.wf(),
        a.prefix == b.prefix,
        b.value() == a.network(),
    ensures
        b.network() == a.network(),
{
    let bs = block_size(a.prefix) as int;
    let k = a.value() / bs;
    lemma_pow2_pos(host_bits(a.prefix));
    assert((k * bs) / bs == k) by (nonlinear_arith)
        requires
            bs > 0,
    ;
}

/// 2 to the power of `8 * n`, for the values a run of `n` octets can take.
pub open spec fn pow2_bits(n: int) -> int {
    if n <= 0 {
        1
    } else if n == 1 {
        0x100
    } else if n == 2 {
        0x10000
    } else if n == 3 {
        0x1000000
    } else {
        0x100000000
    }
}

proof fn lemma_shift_in_octet(x: u32, b: u8)
    requires
        x < 0x1000000,
    ensures
        (x << 8u32) | b as u32 == x as int * 0x100 + b as int,
{
    assert((x << 8u32) | b as u32 == x * 0x100 + b) by (bit_vector)
        requires
            x < 0x1000000,
    ;
}

} // verus!
