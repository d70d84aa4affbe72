//! The hash function of the ring: a fixed-seed 64-bit hash reduced into the
//! bucket space `[0, 1024)`, together with the spec-level model of virtual-node
//! identifiers (a server name followed by a decimal index).

use vstd::prelude::*;
use vstd::string::StringExecFns;
use std::hash::Hasher;
use twox_hash::XxHash64;

verus! {

/// Size of the bucket space: every hash value is reduced modulo this constant.
pub const BUCKET_SPACE: u64 = 1024;

/// The value of the fixed-seed 64-bit hash on a string. The hash depends on
/// the characters of the string alone, so the result is named rather than
/// written out.
pub uninterp spec fn xxhash64_of(s: Seq<char>) -> u64;

/// Relies on `twox_hash::XxHash64` seeded with 0: writing the string's bytes
/// and finishing yields a 64-bit value that is a function of the string alone,
/// the same in every process.
#[verifier::external_body]
fn xxhash64(s: &str) -> (r: u64)
    ensures
        r == xxhash64_of(s@),
{
    let mut hasher = XxHash64::with_seed(0);
    hasher.write(s.as_bytes());
    hasher.finish()
}

/// A string hashed into the bucket space: the fixed-seed hash reduced modulo
/// `BUCKET_SPACE`.
pub open spec fn bucket_of(s: Seq<char>) -> u64 {
    xxhash64_of(s) % BUCKET_SPACE
}

/// The decimal digit `d` as a character.
pub open spec fn digit_char(d: nat) -> char
    recommends
        d < 10,
{
    ((d + 48) as u8) as char
}

/// The decimal representation of `n`, as the characters `format!`-style
/// printing produces: most significant digit first, no leading zeros except
/// for `n == 0` itself.
pub open spec fn decimal_chars(n: nat) -> Seq<char>
    decreases n,
{
    if n < 10 {
        seq![digit_char(n)]
    } else {
        decimal_chars(n / 10).push(digit_char(n % 10))
    }
}

/// The identifier of virtual node `i` of server `server`: the name followed by
/// the decimal index.
pub open spec fn vnode_id(server: Seq<char>, i: nat) -> Seq<char> {
    server + decimal_chars(i)
}

/// The bucket-space position of virtual node `i` of server `server`.
pub open spec fn vnode_pos(server: Seq<char>, i: nat) -> u64 {
    bucket_of(vnode_id(server, i))
}

/// Whether `p` is one of the first `n` virtual-node positions of `server`.
pub open spec fn in_vnode_positions(server: Seq<char>, n: nat, p: u64) -> bool {
    exists|i: nat| i < n && vnode_pos(server, i) == p
}

/// The first `n` virtual-node positions of `server`, in index order.
pub open spec fn vnode_position_list(server: Seq<char>, n: nat) -> Seq<u64> {
    Seq::new(n, |i: int| vnode_pos(server, i as nat))
}

/// Extending the virtual-node range by one adds exactly that node's position.
pub proof fn lemma_in_vnode_positions_step(server: Seq<char>, n: nat, p: u64)
    ensures
        in_vnode_positions(server, n + 1, p) <==> (in_vnode_positions(server, n, p) || p
            == vnode_pos(server, n)),
{
    if in_vnode_positions(server, n + 1, p) {
        let i = choose|i: nat| i < n + 1 && vnode_pos(server, i) == p;
        if i < n {
            assert(in_vnode_positions(server, n, p));
        }
    }
    if p == vnode_pos(server, n) {
        assert(n < n + 1 && vnode_pos(server, n) == p);
        assert(in_vnode_positions(server, n + 1, p));
    }
}

/// A one-character string for the decimal digit `d`.
fn digit_str(d: u64) -> (r: &'static str)
    requires
        d < 10,
    ensures
        r@ =~= seq![digit_char(d as nat)],
{
    proof {
        reveal_strlit("0");
        reveal_strlit("1");
        reveal_strlit("2");
        reveal_strlit("3");
        reveal_strlit("4");
        reveal_strlit("5");
        reveal_strlit("6");
        reveal_strlit("7");
        reveal_strlit("8");
        reveal_strlit("9");
    }
    if d == 0 {
        "0"
    } else if d == 1 {
        "1"
    } else if d == 2 {
        "2"
    } else if d == 3 {
        "3"
    } else if d == 4 {
        "4"
    } else if d == 5 {
        "5"
    } else if d == 6 {
        "6"
    } else if d == 7 {
        "7"
    } else if d == 8 {
        "8"
    } else {
        "9"
    }
}

/// The decimal representation of `n` as a string.
fn decimal_string(n: u64) -> (r: String)
    ensures
        r@ == decimal_chars(n as nat),
    decreases n,
{
    if n < 10 {
        String::from_str(digit_str(n))
    } else {
        let mut s = decimal_string(n / 10);
        s.append(digit_str(n % 10));
        assert(s@ == decimal_chars(n as nat));
        s
    }
}

/// Builds the identifier of virtual node `i` of server `server`.
pub fn vnode_string(server: &str, i: u64) -> (r: String)
    ensures
        r@ == vnode_id(server@, i as nat),
{
    let mut s = String::from_str(server);
    let d = decimal_string(i);
    s.append(d.as_str());
    s
}

/// A hash function that maps a string into the bucket space.
pub trait HasherTrait {
    /// The mathematical function this hasher computes.
    spec fn hash_spec(&self, data: Seq<char>) -> u64;

    /// Hash `data` into the bucket space.
    fn hash_to_used(&self, data: &str) -> (r: u64)
        ensures
            r == self.hash_spec(data@),
            r < BUCKET_SPACE,
    ;
}

/// The ring's hash function: the fixed-seed 64-bit hash reduced into the
/// bucket space.
pub struct MyHasher {}

impl HasherTrait for MyHasher {
    open spec fn hash_spec(&self, data: Seq<char>) -> u64 {
        bucket_of(data)
    }

    fn hash_to_used(&self, data: &str) -> (r: u64) {
        let h = xxhash64(data);
        h % BUCKET_SPACE
    }
}

} // verus!
