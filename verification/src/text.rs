//! Text helpers at the edge of the store: sanitising filenames before they
//! become storage keys, and rendering an authentication path as hex strings.

use vstd::prelude::*;
use crate::tree::FastMerkleTree;

verus! {

/// A byte a stored filename may keep: ASCII alphanumeric, `_`, `.` or `-`.
pub open spec fn is_allowed_byte(b: u8) -> bool {
    (48 <= b <= 57) || (65 <= b <= 90) || (97 <= b <= 122) || b == 95 || b == 46 || b == 45
}

/// An ASCII whitespace byte.
pub open spec fn is_space_byte(b: u8) -> bool {
    b == 32 || b == 9 || b == 10 || b == 13 || b == 12 || b == 11
}

/// The first index at or after `from` holding a non-whitespace byte, or the
/// length when there is none.
pub open spec fn first_non_space(s: Seq<u8>, from: int) -> int
    decreases s.len() - from,
    when 0 <= from <= s.len()
{
    if from >= s.len() {
        s.len() as int
    } else if is_space_byte(s[from]) {
        first_non_space(s, from + 1)
    } else {
        from
    }
}

/// One past the last index below `upto` holding a non-whitespace byte, or 0
/// when there is none.
pub open spec fn last_non_space(s: Seq<u8>, upto: int) -> int
    decreases upto,
    when 0 <= upto <= s.len()
{
    if upto <= 0 {
        0
    } else if is_space_byte(s[upto - 1]) {
        last_non_space(s, upto - 1)
    } else {
        upto
    }
}

/// `s` without leading and trailing ASCII whitespace.
pub open spec fn trim_spaces(s: Seq<u8>) -> Seq<u8> {
    let a = first_non_space(s, 0);
    if a == s.len() {
        Seq::empty()
    } else {
        s.subrange(a, last_non_space(s, s.len() as int))
    }
}

/// What cleaning a filename yields: the name without surrounding ASCII
/// whitespace, every byte outside the allowed set replaced by `_`.
pub open spec fn clean_name_spec(s: Seq<u8>) -> Seq<u8> {
    let t = trim_spaces(s);
    Seq::new(t.len(), |i: int| if is_allowed_byte(t[i]) { t[i] } else { 95u8 })
}

fn is_space(b: u8) -> (r: bool)
    ensures
        r == is_space_byte(b),
{
    b == 32 || b == 9 || b == 10 || b == 13 || b == 12 || b == 11
}

/// Clean a filename for storage: strip surrounding ASCII whitespace and
/// replace every byte that is not ASCII alphanumeric, `_`, `.` or `-` with
/// `_`.
pub fn clean_file_name(name: &[u8]) -> (r: Vec<u8>)
    ensures
        r@ == clean_name_spec(name@),
{
    let mut start: usize = 0;
    while start < name.len() && is_space(name[start])
        invariant
            0 <= start <= name@.len(),
            first_non_space(name@, 0) == first_non_space(name@, start as int),
        decreases name@.len() - start,
    {
        start = start + 1;
    }
    if start == name.len() {
        let r: Vec<u8> = Vec::new();
        assert(r@ =~= clean_name_spec(name@));
        return r;
    }
    assert(first_non_space(name@, 0) == start);
    let mut end: usize = name.len();
    while end > start && is_space(name[end - 1])
        invariant
            start < end <= name@.len(),
            !is_space_byte(name@[start as int]),
            last_non_space(name@, name@.len() as int) == last_non_space(name@, end as int),
        decreases end,
    {
        end = end - 1;
    }
    assert(end > start);
    assert(last_non_space(name@, name@.len() as int) == end);
    let ghost t = trim_spaces(name@);
    proof {
        assert(t =~= name@.subrange(start as int, end as int));
    }
    let mut r: Vec<u8> = Vec::new();
    let mut i: usize = start;
    while i < end
        invariant
            start <= i <= end <= name@.len(),
            t == trim_spaces(name@),
            t =~= name@.subrange(start as int, end as int),
            r@.len() == i - start,
            forall|j: int|
                0 <= j < i - start ==> r@[j] == (if is_allowed_byte(t[j]) {
                    t[j]
                } else {
                    95u8
                }),
        decreases end - i,
    {
        let b = name[i];
        let keep = (48 <= b && b <= 57) || (65 <= b && b <= 90) || (97 <= b && b <= 122) || b == 95
            || b == 46 || b == 45;
        if keep {
            r.push(b);
        } else {
            r.push(95u8);
        }
        i = i + 1;
    }
    assert(r@ =~= clean_name_spec(name@));
    r
}

/// The lower-case hex character for a value below 16.
pub open spec fn hex_digit(n: u8) -> char {
    if n < 10 {
        (48 + n) as char
    } else {
        (87 + n) as char
    }
}

/// The lower-case hex rendering of a byte string: two characters per byte,
/// high nibble first.
pub open spec fn hex_of(bytes: Seq<u8>) -> Seq<char> {
    Seq::new(2 * bytes.len(), |i: int| if i % 2 == 0 {
        hex_digit(bytes[i / 2] / 16)
    } else {
        hex_digit(bytes[i / 2] % 16)
    })
}

/// Relies on String::push: it appends the one character.
#[verifier::external_body]
fn push_char(s: &mut String, c: char)
    ensures
        final(s)@ == old(s)@.push(c),
{
    s.push(c)
}

fn hex_char_of(n: u8) -> (c: char)
    requires
        n < 16,
    ensures
        c == hex_digit(n),
{
    if n < 10 {
        (48 + n) as char
    } else {
        (87 + n) as char
    }
}

/// Render one byte string as lower-case hex.
pub fn hex_string(bytes: &[u8]) -> (s: String)
    ensures
        s@ == hex_of(bytes@),
{
    let mut s = String::new();
    let mut i: usize = 0;
    while i < bytes.len()
        invariant
            i <= bytes@.len(),
            s@ == hex_of(bytes@.subrange(0, i as int)),
        decreases bytes@.len() - i,
    {
        let b = bytes[i];
        push_char(&mut s, hex_char_of(b / 16));
        push_char(&mut s, hex_char_of(b % 16));
        proof {
            assert(s@ =~= hex_of(bytes@.subrange(0, i + 1)));
        }
        i = i + 1;
    }
    proof {
        assert(bytes@.subrange(0, bytes@.len() as int) =~= bytes@);
    }
    s
}

impl FastMerkleTree {
    /// Render an authentication path for display: each sibling hash as a
    /// lower-case hex string, each side flag unchanged.
    pub fn pretty_merkle_proof(merkle_proof: Vec<(Vec<u8>, bool)>) -> (pretty: Vec<(String, bool)>)
        ensures
            pretty@.len() == merkle_proof@.len(),
            forall|i: int|
                0 <= i < merkle_proof@.len() ==> #[trigger] pretty@[i].0@ == hex_of(
                    merkle_proof@[i].0@,
                ) && pretty@[i].1 == merkle_proof@[i].1,
    {
        let mut pretty: Vec<(String, bool)> = Vec::new();
        let mut i: usize = 0;
        while i < merkle_proof.len()
            invariant
                i <= merkle_proof@.len(),
                pretty@.len() == i,
                forall|j: int|
                    0 <= j < i ==> #[trigger] pretty@[j].0@ == hex_of(merkle_proof@[j].0@)
                        && pretty@[j].1 == merkle_proof@[j].1,
            decreases merkle_proof@.len() - i,
        {
            let s = hex_string(merkle_proof[i].0.as_slice());
            let flag = merkle_proof[i].1;
            pretty.push((s, flag));
            i = i + 1;
        }
        pretty
    }
}

} // verus!
