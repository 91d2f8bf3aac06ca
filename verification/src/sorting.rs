use vstd::prelude::*;
use vstd::relations::{sorted_by, total_ordering};
use vstd::seq_lib::lemma_sorted_unique;
use vstd::seq_lib::lemma_multiset_commutative;

verus! {

broadcast use vstd::seq_lib::group_to_multiset_ensures;

/// The order on characters used throughout: by Unicode scalar value.
pub open spec fn char_le() -> spec_fn(char, char) -> bool {
    |a: char, b: char| a as u32 <= b as u32
}

/// A sequence of characters in ascending order.
pub open spec fn sorted_chars(s: Seq<char>) -> bool {
    sorted_by(s, char_le())
}

/// A signature key for `s`: ascending, duplicate-free, and holding exactly
/// the distinct characters of `s`.
pub open spec fn is_signature(key: Seq<char>, s: Seq<char>) -> bool {
    &&& sorted_chars(key)
    &&& key.no_duplicates()
    &&& key.to_set() == s.to_set()
}

/// Two characters with the same scalar value are the same character.
pub proof fn lemma_char_eq(a: char, b: char)
    requires
        a as u32 == b as u32,
    ensures
        a == b,
{
    vstd::utf8::char_u32_cast(a, a as u32);
    vstd::utf8::char_u32_cast(b, b as u32);
}

/// The character order is a total order.
pub proof fn lemma_char_le_total()
    ensures
        total_ordering(char_le()),
{
    let le = char_le();
    assert forall|a: char, b: char| #[trigger] le(a, b) && #[trigger] le(b, a) implies a == b by {
        lemma_char_eq(a, b);
    }
}

/// Inserting a character anywhere into a sequence inserts it into the multiset.
pub proof fn lemma_insert_to_multiset(s: Seq<char>, i: int, c: char)
    requires
        0 <= i <= s.len(),
    ensures
        s.insert(i, c).to_multiset() == s.to_multiset().insert(c),
{
    let a = s.take(i);
    let b = s.skip(i);
    assert(s =~= a + b);
    assert(s.insert(i, c) =~= a.push(c) + b);
    lemma_multiset_commutative(a, b);
    lemma_multiset_commutative(a.push(c), b);
    assert(a.push(c).to_multiset() == a.to_multiset().insert(c));
    assert(s.insert(i, c).to_multiset() =~= s.to_multiset().insert(c));
}

/// Two signatures of the same sequence are equal.
pub proof fn lemma_signature_unique(k1: Seq<char>, k2: Seq<char>, s: Seq<char>)
    requires
        is_signature(k1, s),
        is_signature(k2, s),
    ensures
        k1 == k2,
{
    lemma_char_le_total();
    k1.lemma_multiset_has_no_duplicates();
    k2.lemma_multiset_has_no_duplicates();
    assert(k1.to_multiset() =~= k2.to_multiset()) by {
        assert forall|x: char| k1.to_multiset().count(x) == k2.to_multiset().count(x) by {
            if k1.to_set().contains(x) {
                assert(k1.contains(x) && k2.contains(x));
                assert(k1.to_multiset().count(x) == 1 && k2.to_multiset().count(x) == 1);
            } else {
                assert(!k1.contains(x) && !k2.contains(x));
                assert(k1.to_multiset().count(x) == 0 && k2.to_multiset().count(x) == 0);
            }
        }
    }
    lemma_sorted_unique(k1, k2, char_le());
    assert(k1 =~= k2);
}

/// Pushing a character inserts it into the set of characters.
pub proof fn lemma_push_to_set(s: Seq<char>, c: char)
    ensures
        s.push(c).to_set() == s.to_set().insert(c),
{
    assert forall|x: char| #[trigger] s.push(c).contains(x) <==> s.contains(x) || x == c by {
        if s.push(c).contains(x) {
            let j = choose|j: int| 0 <= j < s.push(c).len() && s.push(c)[j] == x;
            if j < s.len() {
                assert(s[j] == x);
            }
        }
        if s.contains(x) {
            let j = choose|j: int| 0 <= j < s.len() && s[j] == x;
            assert(s.push(c)[j] == x);
        }
        if x == c {
            assert(s.push(c)[s.len() as int] == x);
        }
    }
    assert(s.push(c).to_set() =~= s.to_set().insert(c));
}

/// Sequences with the same multiset hold the same set of characters.
pub proof fn lemma_multiset_eq_set_eq(a: Seq<char>, b: Seq<char>)
    requires
        a.to_multiset() == b.to_multiset(),
    ensures
        a.to_set() == b.to_set(),
{
    assert forall|x: char| a.contains(x) <==> b.contains(x) by {
        assert(a.contains(x) <==> a.to_multiset().count(x) > 0);
        assert(b.contains(x) <==> b.to_multiset().count(x) > 0);
    }
    assert(a.to_set() =~= b.to_set());
}

/// Sequences with the same multiset have the same length.
pub proof fn lemma_multiset_eq_len(a: Seq<char>, b: Seq<char>)
    requires
        a.to_multiset() == b.to_multiset(),
    ensures
        a.len() == b.len(),
{
    assert(a.len() == a.to_multiset().len());
    assert(b.len() == b.to_multiset().len());
}

/// A sequence with the multiset of a duplicate-free sequence is itself
/// duplicate-free.
pub proof fn lemma_multiset_eq_no_duplicates(a: Seq<char>, b: Seq<char>)
    requires
        a.to_multiset() == b.to_multiset(),
        a.no_duplicates(),
    ensures
        b.no_duplicates(),
{
    a.lemma_multiset_has_no_duplicates();
    assert forall|x: char|
        b.to_multiset().contains(x) implies b.to_multiset().count(x) == 1 by {
        assert(a.to_multiset().count(x) == b.to_multiset().count(x));
    }
    b.lemma_multiset_has_no_duplicates_conv();
}

/// A copy of `v`.
pub fn copy_chars(v: &Vec<char>) -> (r: Vec<char>)
    ensures
        r@ == v@,
{
    let mut r: Vec<char> = Vec::new();
    let mut i: usize = 0;
    while i < v.len()
        invariant
            0 <= i <= v@.len(),
            r@ == v@.take(i as int),
        decreases v@.len() - i,
    {
        r.push(v[i]);
        proof {
            assert(v@.take(i + 1) =~= v@.take(i as int).push(v@[i as int]));
        }
        i += 1;
    }
    proof {
        assert(v@.take(v@.len() as int) =~= v@);
    }
    r
}

/// Whether `v` holds the character `c`.
pub fn contains_char(v: &Vec<char>, c: char) -> (b: bool)
    ensures
        b == v@.contains(c),
{
    let mut i: usize = 0;
    while i < v.len()
        invariant
            0 <= i <= v@.len(),
            forall|p: int| 0 <= p < i ==> v@[p] != c,
        decreases v@.len() - i,
    {
        if v[i] == c {
            return true;
        }
        i += 1;
    }
    false
}

/// Whether `v` holds the same character at two different positions.
pub fn has_duplicate(v: &Vec<char>) -> (b: bool)
    ensures
        b == !v@.no_duplicates(),
{
    let mut i: usize = 0;
    while i < v.len()
        invariant
            0 <= i <= v@.len(),
            forall|p: int, q: int| 0 <= p < q < v@.len() && p < i ==> v@[p] != v@[q],
        decreases v@.len() - i,
    {
        let mut j: usize = i + 1;
        while j < v.len()
            invariant
                0 <= i < j <= v@.len(),
                forall|q: int| i < q < j ==> v@[i as int] != v@[q],
            decreases v@.len() - j,
        {
            if v[j] == v[i] {
                return true;
            }
            j += 1;
        }
        i += 1;
    }
    false
}

/// Insert `c` into the ascending sequence `v`, keeping it ascending.
pub fn insert_sorted(v: &mut Vec<char>, c: char)
    requires
        sorted_chars(old(v)@),
    ensures
        sorted_chars(final(v)@),
        final(v)@.to_multiset() == old(v)@.to_multiset().insert(c),
        final(v)@.len() == old(v)@.len() + 1,
{
    let mut i: usize = 0;
    while i < v.len() && (v[i] as u32) < (c as u32)
        invariant
            0 <= i <= v@.len(),
            forall|p: int| 0 <= p < i ==> (v@[p] as u32) < (c as u32),
        decreases v@.len() - i,
    {
        i += 1;
    }
    let ghost oldv = v@;
    v.insert(i, c);
    proof {
        lemma_insert_to_multiset(oldv, i as int, c);
        let le = char_le();
        assert forall|p: int, q: int| 0 <= p < q < v@.len() implies #[trigger] le(v@[p], v@[q]) by {
            if q < i {
                assert(le(oldv[p], oldv[q]));
            } else if p > i {
                assert(le(oldv[p - 1], oldv[q - 1]));
            } else if p == i {
                // v[p] == c and oldv[q - 1] is at or after position i
                if i < oldv.len() {
                    assert(le(oldv[i as int], oldv[q - 1]));
                }
            } else if q == i {
                assert(v@[p] == oldv[p]);
            } else {
                // p < i < q
                if i < oldv.len() {
                    assert(le(oldv[i as int], oldv[q - 1]));
                }
            }
        }
    }
}

/// The characters of `v` in ascending order.
pub fn sort_chars(v: &Vec<char>) -> (r: Vec<char>)
    ensures
        r@ == v@.sort_by(char_le()),
        sorted_chars(r@),
        r@.to_multiset() == v@.to_multiset(),
        r@.len() == v@.len(),
{
    let mut out: Vec<char> = Vec::new();
    let mut i: usize = 0;
    while i < v.len()
        invariant
            0 <= i <= v@.len(),
            sorted_chars(out@),
            out@.to_multiset() == v@.take(i as int).to_multiset(),
            out@.len() == i,
        decreases v@.len() - i,
    {
        let c = v[i];
        insert_sorted(&mut out, c);
        proof {
            assert(v@.take(i + 1) =~= v@.take(i as int).push(c));
        }
        i += 1;
    }
    proof {
        assert(v@.take(v@.len() as int) =~= v@);
        lemma_char_le_total();
        v@.lemma_sort_by_ensures(char_le());
        lemma_sorted_unique(out@, v@.sort_by(char_le()), char_le());
        assert(out@ =~= v@.sort_by(char_le()));
    }
    out
}

/// The signature key of `v`: its distinct characters in ascending order.
pub fn signature_chars(v: &Vec<char>) -> (r: Vec<char>)
    ensures
        is_signature(r@, v@),
{
    let mut out: Vec<char> = Vec::new();
    let mut i: usize = 0;
    while i < v.len()
        invariant
            0 <= i <= v@.len(),
            sorted_chars(out@),
            out@.no_duplicates(),
            out@.to_set() == v@.take(i as int).to_set(),
        decreases v@.len() - i,
    {
        let c = v[i];
        proof {
            assert(v@.take(i + 1) =~= v@.take(i as int).push(c));
            let s = v@.take(i as int);
            assert forall|x: char| #[trigger] s.push(c).contains(x) <==> s.contains(x) || x == c by {
                if s.push(c).contains(x) {
                    let j = choose|j: int| 0 <= j < s.push(c).len() && s.push(c)[j] == x;
                    if j < s.len() {
                        assert(s[j] == x);
                    }
                }
                if s.contains(x) {
                    let j = choose|j: int| 0 <= j < s.len() && s[j] == x;
                    assert(s.push(c)[j] == x);
                }
                if x == c {
                    assert(s.push(c)[s.len() as int] == x);
                }
            }
            assert(v@.take(i + 1).to_set() =~= v@.take(i as int).to_set().insert(c));
        }
        if !contains_char(&out, c) {
            let ghost oldout = out@;
            insert_sorted(&mut out, c);
            proof {
                oldout.lemma_multiset_has_no_duplicates();
                assert(out@.to_multiset() == oldout.to_multiset().insert(c));
                assert(!oldout.contains(c));
                assert(oldout.to_multiset().count(c) == 0);
                assert forall|x: char|
                    out@.to_multiset().contains(x) implies out@.to_multiset().count(x) == 1 by {
                    if x == c {
                        assert(out@.to_multiset().count(c) == 1);
                    } else {
                        assert(out@.to_multiset().count(x) == oldout.to_multiset().count(x));
                    }
                }
                out@.lemma_multiset_has_no_duplicates_conv();
                assert(out@.to_set() =~= oldout.to_set().insert(c)) by {
                    assert forall|x: char| out@.to_set().contains(x) <==> oldout.to_set().insert(
                        c,
                    ).contains(x) by {
                        assert(out@.contains(x) <==> out@.to_multiset().count(x) > 0);
                        assert(oldout.contains(x) <==> oldout.to_multiset().count(x) > 0);
                    }
                }
            }
        } else {
            proof {
                assert(out@.to_set().contains(c));
                assert(out@.to_set() =~= out@.to_set().insert(c));
            }
        }
        i += 1;
    }
    proof {
        assert(v@.take(v@.len() as int) =~= v@);
    }
    out
}

} // verus!
