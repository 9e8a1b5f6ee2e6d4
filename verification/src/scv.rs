//! The character lookup table of the line parser: the set of operator
//! characters a token may start with.  Membership is exact set
//! membership over the characters the table was built from.

use vstd::prelude::*;
use vstd::string::StrSliceExecFns;

verus! {

/// A lookup table of characters.
pub struct SCV {
    chars: Vec<char>,
}

impl View for SCV {
    type V = Seq<char>;

    closed spec fn view(&self) -> Seq<char> {
        self.chars@
    }
}

/// Build the table from the characters of a string.
pub fn scv_create(input: &str) -> (r: SCV)
    ensures
        r@ == input@,
{
    let n: usize = input.unicode_len();
    let mut chars: Vec<char> = Vec::new();
    let mut i: usize = 0;
    while i < n
        invariant
            n as nat == input@.len(),
            i <= n,
            chars@ == input@.subrange(0, i as int),
        decreases n - i,
    {
        let c: char = input.get_char(i);
        chars.push(c);
        proof {
            assert(chars@ =~= input@.subrange(0, i as int + 1));
        }
        i += 1;
    }
    proof {
        assert(input@.subrange(0, n as int) =~= input@);
    }
    SCV { chars }
}

/// Whether the table holds the character.
pub fn scv_contains(v: &SCV, x: char) -> (r: bool)
    ensures
        r == v@.contains(x),
{
    let mut i: usize = 0;
    while i < v.chars.len()
        invariant
            i <= v@.len(),
            v@ == v.chars@,
            forall|j: int| 0 <= j < i ==> v@[j] != x,
        decreases v@.len() - i,
    {
        if v.chars[i] == x {
            return true;
        }
        i += 1;
    }
    proof {
        if v@.contains(x) {
            let w: int = choose|w: int| 0 <= w < v@.len() && v@[w] == x;
        }
    }
    false
}

} // verus!
