//! Character-level helpers shared by the matchers and the journals.

use vstd::prelude::*;
use vstd::string::StrSliceExecFns;

verus! {

/// The Unicode `White_Space` code points, the set that both `str::trim`
/// and a whitespace character class recognize.
pub open spec fn is_ws_char(c: char) -> bool {
    let u = c as u32;
    u == 0x09 || u == 0x0A || u == 0x0B || u == 0x0C || u == 0x0D || u == 0x20 || u == 0x85
        || u == 0xA0 || u == 0x1680 || (0x2000 <= u && u <= 0x200A) || u == 0x2028 || u == 0x2029
        || u == 0x202F || u == 0x205F || u == 0x3000
}

pub fn is_whitespace_char(c: char) -> (r: bool)
    ensures
        r == is_ws_char(c),
{
    let u = c as u32;
    u == 0x09 || u == 0x0A || u == 0x0B || u == 0x0C || u == 0x0D || u == 0x20 || u == 0x85
        || u == 0xA0 || u == 0x1680 || (0x2000 <= u && u <= 0x200A) || u == 0x2028 || u == 0x2029
        || u == 0x202F || u == 0x205F || u == 0x3000
}

/// Collects the characters of a string slice into a vector, so that the
/// analyses can index them directly.
pub fn to_chars(s: &str) -> (r: Vec<char>)
    ensures
        r@ == s@,
{
    let n = s.unicode_len();
    let mut v: Vec<char> = Vec::new();
    let mut i: usize = 0;
    while i < n
        invariant
            n == s@.len(),
            i <= n,
            v@ == s@.take(i as int),
        decreases n - i,
    {
        let c = s.get_char(i);
        v.push(c);
        i = i + 1;
        proof {
            assert(v@ =~= s@.take(i as int));
        }
    }
    proof {
        assert(v@ =~= s@);
    }
    v
}

/// Builds an indented output line: the indent character repeated
/// `indent_level` times, then the message. The caller does the printing.
pub fn indent_print(message: &str, indent_level: u32, indent_character: char) -> (r: Vec<char>)
    ensures
        r@ == Seq::new(indent_level as nat, |k: int| indent_character) + message@,
{
    let mut v: Vec<char> = Vec::new();
    let mut indent_printed: u32 = 0;
    while indent_printed < indent_level
        invariant
            indent_printed <= indent_level,
            v@ == Seq::new(indent_printed as nat, |k: int| indent_character),
        decreases indent_level - indent_printed,
    {
        v.push(indent_character);
        indent_printed = indent_printed + 1;
        proof {
            assert(v@ =~= Seq::new(indent_printed as nat, |k: int| indent_character));
        }
    }
    let mut tail = to_chars(message);
    v.append(&mut tail);
    proof {
        assert(v@ =~= Seq::new(indent_level as nat, |k: int| indent_character) + message@);
    }
    v
}

} // verus!
