use vstd::prelude::*;

verus! {

/// Whether `c` is an upper-case English letter.
pub open spec fn is_upper(c: char) -> bool {
    'A' as u32 <= c as u32 && c as u32 <= 'Z' as u32
}

/// Whether `c` is a lower-case English letter.
pub open spec fn is_letter(c: char) -> bool {
    'a' as u32 <= c as u32 && c as u32 <= 'z' as u32
}

/// The case-folded form of `c`: upper-case English letters map to their
/// lower-case counterparts, every other character is unchanged.
pub open spec fn folded(c: char) -> char {
    if is_upper(c) {
        ((c as u32 + 32) as u32) as char
    } else {
        c
    }
}

/// Case-fold a single character.
pub fn fold_char(c: char) -> (r: char)
    ensures
        r == folded(c),
{
    let u: u32 = c as u32;
    if 65 <= u && u <= 90 {
        ((u + 32) as u8) as char
    } else {
        c
    }
}

/// Whether `c` is an English letter in either case.
pub open spec fn is_alpha(c: char) -> bool {
    is_letter(c) || is_upper(c)
}

/// Whether `c` is an English letter in either case.
pub fn alpha_char(c: char) -> (b: bool)
    ensures
        b == is_alpha(c),
{
    let u: u32 = c as u32;
    (97 <= u && u <= 122) || (65 <= u && u <= 90)
}

/// The sequence `s` with every character case-folded.
pub open spec fn folded_seq(s: Seq<char>) -> Seq<char> {
    s.map_values(|c: char| folded(c))
}

/// Case-fold every character of `v`.
pub fn fold_chars(v: &Vec<char>) -> (r: Vec<char>)
    ensures
        r@ == folded_seq(v@),
{
    let mut r: Vec<char> = Vec::new();
    let mut i: usize = 0;
    while i < v.len()
        invariant
            0 <= i <= v@.len(),
            r@ == folded_seq(v@.take(i as int)),
        decreases v@.len() - i,
    {
        let c = fold_char(v[i]);
        r.push(c);
        proof {
            assert(folded_seq(v@.take(i + 1)) =~= folded_seq(v@.take(i as int)).push(c));
        }
        i += 1;
    }
    proof {
        assert(v@.take(v@.len() as int) =~= v@);
    }
    r
}

/// Folding is idempotent: a folded character folds to itself.
pub proof fn lemma_folded_idempotent(c: char)
    ensures
        folded(folded(c)) == folded(c),
{
}

} // verus!
