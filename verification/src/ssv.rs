//! The command lookup table of the line parser.  Each stored string is
//! keyed by a 64-bit hash of its characters, and membership compares
//! hashes only, exactly as the table's callers expect.

use vstd::prelude::*;
use vstd::string::StrSliceExecFns;

verus! {

/// The hash of the first `i` characters of `s`, folded left over the
/// polynomial step `h * 31 + c` modulo two to the sixty-fourth, from the
/// starting value `h`.
pub open spec fn strhash_from(s: Seq<char>, i: int, h: int) -> int
    decreases s.len() - i,
{
    if i < 0 || i >= s.len() {
        h
    } else {
        strhash_from(s, i + 1, (h * 31 + (s[i] as u32)) % 0x10000000000000000)
    }
}

/// The hash of a whole character row.
pub open spec fn strhash(s: Seq<char>) -> int {
    strhash_from(s, 0, 5381)
}

/// A lookup table of string hashes.
pub struct SSV {
    keys: Vec<u64>,
}

impl View for SSV {
    type V = Seq<u64>;

    closed spec fn view(&self) -> Seq<u64> {
        self.keys@
    }
}

/// Hash a string's characters into the 64-bit key the table stores.
pub fn ssv_strhash(x: &str) -> (r: u64)
    ensures
        r as int == strhash(x@),
{
    let n: usize = x.unicode_len();
    let mut h: u64 = 5381;
    let mut i: usize = 0;
    while i < n
        invariant
            n as nat == x@.len(),
            i <= n,
            strhash_from(x@, i as int, h as int) == strhash(x@),
        decreases n - i,
    {
        let c: char = x.get_char(i);
        let wide: u128 = (h as u128) * 31 + (c as u128);
        proof {
            assert((wide as int) % 0x10000000000000000 == ((h as int) * 31 + (c as u32))
                % 0x10000000000000000);
        }
        h = (wide % 0x10000000000000000u128) as u64;
        i += 1;
    }
    h
}

/// Build the table from a list of strings.
pub fn ssv_create(items: &Vec<String>) -> (r: SSV)
    ensures
        r@.len() == items@.len(),
        forall|j: int| 0 <= j < items@.len() ==> #[trigger] r@[j] as int == strhash(items@[j]@),
{
    let mut keys: Vec<u64> = Vec::new();
    let mut i: usize = 0;
    while i < items.len()
        invariant
            i <= items@.len(),
            keys@.len() == i,
            forall|j: int| 0 <= j < i ==> #[trigger] keys@[j] as int == strhash(items@[j]@),
        decreases items@.len() - i,
    {
        let k: u64 = ssv_strhash(items[i].as_str());
        keys.push(k);
        i += 1;
    }
    SSV { keys }
}

/// Whether some stored string hashes to the same key as `x`.  As in the
/// original table, only the hashes are compared.
pub fn ssv_contains(v: &SSV, x: &str) -> (r: bool)
    ensures
        r == exists|j: int| 0 <= j < v@.len() && #[trigger] v@[j] as int == strhash(x@),
{
    let hx: u64 = ssv_strhash(x);
    let mut i: usize = 0;
    while i < v.keys.len()
        invariant
            i <= v@.len(),
            v@ == v.keys@,
            hx as int == strhash(x@),
            forall|j: int| 0 <= j < i ==> #[trigger] v@[j] != hx,
        decreases v@.len() - i,
    {
        if v.keys[i] == hx {
            return true;
        }
        i += 1;
    }
    false
}

} // verus!
