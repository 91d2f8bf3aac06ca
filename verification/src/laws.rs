use vstd::prelude::*;
use vstd::seq_lib::lemma_sorted_unique;

use crate::letters::{folded, folded_seq, is_alpha};
use crate::sorting::{char_le, sorted_chars, is_signature, lemma_char_le_total, lemma_char_eq,
    lemma_push_to_set, lemma_multiset_eq_set_eq, lemma_multiset_eq_no_duplicates};
use crate::spelling_bee_service::{sanitize_ok, sanitized_outside, validate_ok, combos,
    combos_upto, all_combos, puzzle_keys, lemma_sixty_four_combos, processed_words, index_map,
    gather_words, solve_spec};

verus! {

broadcast use {vstd::seq_lib::group_to_multiset_ensures, vstd::seq_lib::group_filter_ensures};

/// An element of a joined sequence comes from one of its parts.
proof fn lemma_add_contains<A>(a: Seq<A>, b: Seq<A>, x: A)
    ensures
        (a + b).contains(x) <==> a.contains(x) || b.contains(x),
{
    if (a + b).contains(x) {
        let j = choose|j: int| 0 <= j < (a + b).len() && (a + b)[j] == x;
        if j < a.len() {
            assert(a[j] == x);
        } else {
            assert(b[j - a.len()] == x);
        }
    }
    if a.contains(x) {
        let j = choose|j: int| 0 <= j < a.len() && a[j] == x;
        assert((a + b)[j] == x);
    }
    if b.contains(x) {
        let j = choose|j: int| 0 <= j < b.len() && b[j] == x;
        assert((a + b)[a.len() + j] == x);
    }
}

/// Whether `a` can be drawn from `b` in increasing position order, starting
/// at position `start`.
spec fn subseq_from(a: Seq<char>, b: Seq<char>, start: int) -> bool
    decreases b.len() - start,
{
    if a.len() == 0 {
        true
    } else if start < 0 || start >= b.len() {
        false
    } else {
        (a[0] == b[start] && subseq_from(a.drop_first(), b, start + 1)) || subseq_from(
            a,
            b,
            start + 1,
        )
    }
}

/// A drawn sequence is no longer than what is left to draw from.
proof fn lemma_subseq_len(a: Seq<char>, b: Seq<char>, start: int)
    requires
        subseq_from(a, b, start),
        0 <= start <= b.len(),
    ensures
        a.len() <= b.len() - start,
    decreases b.len() - start,
{
    if a.len() == 0 {
    } else if a[0] == b[start] && subseq_from(a.drop_first(), b, start + 1) {
        lemma_subseq_len(a.drop_first(), b, start + 1);
    } else {
        lemma_subseq_len(a, b, start + 1);
    }
}

/// Dropping the first character keeps a sequence ascending and duplicate-free.
proof fn lemma_drop_first_props(a: Seq<char>)
    requires
        a.len() > 0,
        sorted_chars(a),
        a.no_duplicates(),
    ensures
        sorted_chars(a.drop_first()),
        a.drop_first().no_duplicates(),
{
    let le = char_le();
    assert forall|p: int, q: int| 0 <= p < q < a.drop_first().len() implies #[trigger] le(
        a.drop_first()[p],
        a.drop_first()[q],
    ) by {
        assert(le(a[p + 1], a[q + 1]));
    }
    assert forall|p: int, q: int|
        #![trigger a.drop_first()[p], a.drop_first()[q]]
        0 <= p < q < a.drop_first().len() implies a.drop_first()[p] != a.drop_first()[q] by {
        assert(a[p + 1] != a[q + 1]);
    }
}

/// An ascending duplicate-free sequence whose characters all occur in the
/// suffix of another ascending duplicate-free sequence can be drawn from it.
proof fn lemma_sorted_subset_subseq(a: Seq<char>, b: Seq<char>, start: int)
    requires
        sorted_chars(a),
        a.no_duplicates(),
        sorted_chars(b),
        b.no_duplicates(),
        0 <= start <= b.len(),
        forall|x: char|
            a.to_set().contains(x) ==> exists|j: int| start <= j < b.len() && #[trigger] b[j] == x,
    ensures
        subseq_from(a, b, start),
    decreases a.len() + b.len() - start,
{
    let le = char_le();
    if a.len() == 0 {
    } else {
        assert(a.to_set().contains(a[0]));
        let j0 = choose|j: int| start <= j < b.len() && #[trigger] b[j] == a[0];
        lemma_drop_first_props(a);
        if b[start] == a[0] {
            assert forall|x: char| a.drop_first().to_set().contains(x) implies exists|j: int|
                start + 1 <= j < b.len() && #[trigger] b[j] == x by {
                let p = choose|p: int|
                    0 <= p < a.drop_first().len() && #[trigger] a.drop_first()[p] == x;
                assert(a[p + 1] == x);
                assert(x != a[0]);
                assert(a.to_set().contains(x));
                let j = choose|j: int| start <= j < b.len() && #[trigger] b[j] == x;
                assert(j != start);
                assert(b[j] == x);
            }
            lemma_sorted_subset_subseq(a.drop_first(), b, start + 1);
        } else {
            assert(j0 != start);
            assert(le(b[start], b[j0]));
            assert forall|x: char| a.to_set().contains(x) implies exists|j: int|
                start + 1 <= j < b.len() && #[trigger] b[j] == x by {
                let j = choose|j: int| start <= j < b.len() && #[trigger] b[j] == x;
                if j == start {
                    // then x == b[start]; but a[0] <= x and b[start] <= a[0] force equality
                    let p = choose|p: int| 0 <= p < a.len() && #[trigger] a[p] == x;
                    if p == 0 {
                        assert(false);
                    } else {
                        assert(le(a[0], a[p]));
                        assert(le(a[0], b[start]) && le(b[start], a[0]));
                        lemma_char_eq(a[0], b[start]);
                        assert(false);
                    }
                } else {
                    assert(b[j] == x);
                }
            }
            lemma_sorted_subset_subseq(a, b, start + 1);
        }
    }
}

/// Every drawable extension of `current` is emitted among the combinations.
proof fn lemma_combos_complete(
    chars: Seq<char>,
    length: int,
    start: int,
    current: Seq<char>,
    ext: Seq<char>,
)
    requires
        subseq_from(ext, chars, start),
        current.len() + ext.len() == length,
        0 <= start,
    ensures
        combos(chars, length, start, current).contains(current + ext),
    decreases ext.len(), chars.len() - start,
{
    if ext.len() == 0 {
        assert(current + ext =~= current);
        assert(combos(chars, length, start, current)[0] == current);
    } else {
        assert(start < chars.len());
        let left = combos(chars, length, start + 1, current.push(chars[start]));
        let right = combos(chars, length, start + 1, current);
        assert(combos(chars, length, start, current) == left + right);
        if ext[0] == chars[start] && subseq_from(ext.drop_first(), chars, start + 1) {
            lemma_combos_complete(chars, length, start + 1, current.push(chars[start]),
                ext.drop_first());
            assert(current.push(chars[start]) + ext.drop_first() =~= current + ext);
            lemma_add_contains(left, right, current + ext);
        } else {
            assert(subseq_from(ext, chars, start + 1));
            lemma_combos_complete(chars, length, start + 1, current, ext);
            lemma_add_contains(left, right, current + ext);
        }
    }
}

/// A combination of size `j` is among the combinations of sizes up to `k`.
proof fn lemma_combos_upto_contains(chars: Seq<char>, k: int, j: int, x: Seq<char>)
    requires
        0 <= j <= k,
        combos(chars, j, 0, seq![]).contains(x),
    ensures
        combos_upto(chars, k).contains(x),
    decreases k,
{
    if j == k {
        lemma_add_contains(combos_upto(chars, k - 1), combos(chars, k, 0, seq![]), x);
    } else {
        lemma_combos_upto_contains(chars, k - 1, j, x);
        lemma_add_contains(combos_upto(chars, k - 1), combos(chars, k, 0, seq![]), x);
    }
}

/// Every sequence drawable from `chars` is among its combinations.
proof fn lemma_all_combos_complete(chars: Seq<char>, x: Seq<char>)
    requires
        subseq_from(x, chars, 0),
    ensures
        all_combos(chars).contains(x),
{
    lemma_subseq_len(x, chars, 0);
    lemma_combos_complete(chars, x.len() as int, 0, seq![], x);
    assert(Seq::<char>::empty() + x =~= x);
    lemma_combos_upto_contains(chars, chars.len() as int, x.len() as int, x);
}

/// The characters of an emitted combination come from `current` or `chars`.
proof fn lemma_combos_elems(
    chars: Seq<char>,
    length: int,
    start: int,
    current: Seq<char>,
    x: Seq<char>,
)
    requires
        0 <= start,
        combos(chars, length, start, current).contains(x),
    ensures
        x.to_set().subset_of(current.to_set().union(chars.to_set())),
    decreases length - current.len(), chars.len() - start,
{
    if current.len() >= length {
        assert(combos(chars, length, start, current) == seq![current]);
        assert(x == current);
    } else if start >= chars.len() {
        assert(combos(chars, length, start, current).len() == 0);
    } else {
        let left = combos(chars, length, start + 1, current.push(chars[start]));
        let right = combos(chars, length, start + 1, current);
        lemma_add_contains(left, right, x);
        if left.contains(x) {
            lemma_combos_elems(chars, length, start + 1, current.push(chars[start]), x);
            lemma_push_to_set(current, chars[start]);
            assert(chars.contains(chars[start]));
            assert(chars.to_set().contains(chars[start]));
        } else {
            lemma_combos_elems(chars, length, start + 1, current, x);
        }
    }
}

/// The characters of any combination come from `chars`.
proof fn lemma_combos_upto_elems(chars: Seq<char>, k: int, x: Seq<char>)
    requires
        combos_upto(chars, k).contains(x),
    ensures
        x.to_set().subset_of(chars.to_set()),
    decreases k + 1,
{
    if k < 0 {
        assert(combos_upto(chars, k).len() == 0);
    } else {
        lemma_add_contains(combos_upto(chars, k - 1), combos(chars, k, 0, seq![]), x);
        if combos_upto(chars, k - 1).contains(x) {
            lemma_combos_upto_elems(chars, k - 1, x);
        } else {
            lemma_combos_elems(chars, k, 0, seq![], x);
            assert(Seq::<char>::empty().to_set() =~= Set::<char>::empty());
        }
    }
}

/// A probed key holds the inside letter and otherwise only outside letters.
proof fn lemma_keys_sound(outside: Seq<char>, inside: char, j: int)
    requires
        0 <= j < puzzle_keys(outside, inside).len(),
    ensures
        puzzle_keys(outside, inside)[j].to_set() == all_combos(outside)[j].to_set().insert(inside),
        puzzle_keys(outside, inside)[j].to_set().subset_of(
            outside.to_set().insert(inside),
        ),
        puzzle_keys(outside, inside)[j].to_set().contains(inside),
{
    lemma_char_le_total();
    let combo = all_combos(outside)[j];
    let key = puzzle_keys(outside, inside)[j];
    assert(key == combo.push(inside).sort_by(char_le()));
    combo.push(inside).lemma_sort_by_ensures(char_le());
    lemma_multiset_eq_set_eq(key, combo.push(inside));
    lemma_push_to_set(combo, inside);
    assert(all_combos(outside).contains(combo));
    lemma_combos_upto_elems(outside, outside.len() as int, combo);
}

/// Every signature key made of the puzzle's letters and holding the inside
/// letter is probed.
proof fn lemma_keys_complete(outside: Seq<char>, inside: char, k: Seq<char>)
    requires
        sorted_chars(outside),
        outside.no_duplicates(),
        !outside.contains(inside),
        sorted_chars(k),
        k.no_duplicates(),
        k.to_set().contains(inside),
        k.to_set().subset_of(outside.to_set().insert(inside)),
    ensures
        puzzle_keys(outside, inside).contains(k),
{
    lemma_char_le_total();
    let le = char_le();
    assert(k.contains(inside));
    let idx = choose|idx: int| 0 <= idx < k.len() && k[idx] == inside;
    let x = k.remove(idx);
    k.remove_ensures(idx);
    assert(x.to_multiset() == k.to_multiset().remove(inside));
    k.lemma_multiset_has_no_duplicates();
    assert forall|c: char| x.to_multiset().contains(c) implies x.to_multiset().count(c) == 1 by {
        assert(k.to_multiset().count(c) <= 1 || !k.to_multiset().contains(c));
        assert(k.contains(c) <==> k.to_multiset().count(c) > 0);
    }
    x.lemma_multiset_has_no_duplicates_conv();
    assert(sorted_chars(x)) by {
        assert forall|p: int, q: int| 0 <= p < q < x.len() implies #[trigger] le(x[p], x[q]) by {
            if q < idx {
                assert(le(k[p], k[q]));
            } else if p >= idx {
                assert(le(k[p + 1], k[q + 1]));
            } else {
                assert(le(k[p], k[q + 1]));
            }
        }
    }
    assert forall|c: char| x.to_set().contains(c) implies outside.to_set().contains(c) by {
        assert(x.contains(c));
        assert(x.to_multiset().count(c) > 0);
        assert(k.to_multiset().count(c) > 0);
        assert(k.contains(c));
        assert(k.to_set().contains(c));
        if c == inside {
            assert(k.to_multiset().count(inside) <= 1);
            assert(x.to_multiset().count(c) == 0);
            assert(false);
        }
        assert(outside.to_set().insert(inside).contains(c));
    }
    assert forall|c: char|
        x.to_set().contains(c) implies exists|j: int|
        0 <= j < outside.len() && #[trigger] outside[j] == c by {
        assert(outside.to_set().contains(c));
        assert(outside.contains(c));
    }
    lemma_sorted_subset_subseq(x, outside, 0);
    lemma_all_combos_complete(outside, x);
    let j = choose|j: int| 0 <= j < all_combos(outside).len() && all_combos(outside)[j] == x;
    let key = puzzle_keys(outside, inside)[j];
    assert(key == x.push(inside).sort_by(char_le()));
    x.push(inside).lemma_sort_by_ensures(char_le());
    assert(x.push(inside).to_multiset() == x.to_multiset().insert(inside));
    assert(k.to_multiset() =~= x.to_multiset().insert(inside)) by {
        assert(k.to_multiset().contains(inside));
        assert(k.to_multiset().count(inside) >= 1);
    }
    lemma_sorted_unique(key, k, char_le());
    assert(puzzle_keys(outside, inside)[j] == k);
}

/// What a probed key gathers is its bucket in the index.
proof fn lemma_gather_contains(
    keys: Seq<Seq<char>>,
    m: Map<Seq<char>, Seq<Seq<char>>>,
    j: int,
    v: Seq<char>,
)
    requires
        0 <= j < keys.len(),
        m.contains_key(keys[j]),
        m[keys[j]].contains(v),
    ensures
        gather_words(keys, m).contains(v),
    decreases keys.len(),
{
    let bucket = if m.contains_key(keys[0]) {
        m[keys[0]]
    } else {
        seq![]
    };
    if j == 0 {
        lemma_add_contains(bucket, gather_words(keys.drop_first(), m), v);
    } else {
        assert(keys.drop_first()[j - 1] == keys[j]);
        lemma_gather_contains(keys.drop_first(), m, j - 1, v);
        lemma_add_contains(bucket, gather_words(keys.drop_first(), m), v);
    }
}

/// Whatever is gathered sits in some probed key's bucket.
proof fn lemma_gather_sound(keys: Seq<Seq<char>>, m: Map<Seq<char>, Seq<Seq<char>>>, v: Seq<char>)
    requires
        gather_words(keys, m).contains(v),
    ensures
        exists|j: int|
            0 <= j < keys.len() && m.contains_key(#[trigger] keys[j]) && m[keys[j]].contains(v),
    decreases keys.len(),
{
    if keys.len() == 0 {
    } else {
        let bucket = if m.contains_key(keys[0]) {
            m[keys[0]]
        } else {
            seq![]
        };
        lemma_add_contains(bucket, gather_words(keys.drop_first(), m), v);
        if bucket.contains(v) {
            assert(m.contains_key(keys[0]) && m[keys[0]].contains(v));
        } else {
            lemma_gather_sound(keys.drop_first(), m, v);
            let j = choose|j: int|
                0 <= j < keys.drop_first().len() && m.contains_key(
                    #[trigger] keys.drop_first()[j],
                ) && m[keys.drop_first()[j]].contains(v);
            assert(keys[j + 1] == keys.drop_first()[j]);
        }
    }
}

/// Removing duplicates never introduces one.
proof fn lemma_remove_duplicates_no_dup(s: Seq<char>, seen: Seq<char>)
    requires
        seen.no_duplicates(),
    ensures
        s.remove_duplicates(seen).no_duplicates(),
    decreases s.len(),
{
    if s.len() == 0 {
    } else if seen.contains(s[0]) {
        lemma_remove_duplicates_no_dup(s.skip(1), seen);
    } else {
        let seen2 = seen + seq![s[0]];
        assert(seen2.no_duplicates()) by {
            assert forall|p: int, q: int|
                0 <= p < q < seen2.len() implies seen2[p] != seen2[q] by {
                if q < seen.len() {
                    assert(seen[p] != seen[q]);
                } else {
                    assert(seen2[q] == s[0]);
                    assert(seen2[p] == seen[p]);
                    assert(!seen.contains(s[0]));
                    if seen[p] == s[0] {
                        assert(seen.contains(s[0]));
                    }
                }
            }
        }
        lemma_remove_duplicates_no_dup(s.skip(1), seen2);
    }
}

/// A signature key exists for every sequence.
proof fn signature_of(s: Seq<char>) -> (k: Seq<char>)
    ensures
        is_signature(k, s),
{
    lemma_char_le_total();
    let rd = s.remove_duplicates(Seq::<char>::empty());
    s.lemma_remove_duplicates_properties(Seq::<char>::empty());
    lemma_remove_duplicates_no_dup(s, Seq::<char>::empty());
    assert(s + Seq::<char>::empty() =~= s);
    let k = rd.sort_by(char_le());
    rd.lemma_sort_by_ensures(char_le());
    lemma_multiset_eq_set_eq(k, rd);
    lemma_multiset_eq_no_duplicates(rd, k);
    assert forall|c: char| rd.to_set().contains(c) <==> s.to_set().contains(c) by {
        assert(rd.contains(c) <==> (s + Seq::<char>::empty()).contains(c));
    }
    assert(k.to_set() =~= s.to_set());
    k
}

/// A processed word kept its length of at least four characters.
proof fn lemma_processed_elem_len(words: Seq<Seq<char>>, v: Seq<char>)
    requires
        processed_words(words).contains(v),
    ensures
        v.len() >= 4,
{
    let keep = |w: Seq<char>| w.len() >= 4;
    let kept = words.filter(keep);
    let j = choose|j: int|
        0 <= j < processed_words(words).len() && processed_words(words)[j] == v;
    assert(processed_words(words)[j] == folded_seq(kept[j]));
    assert(keep(kept[j]));
}

/// A word of the list that survives processing appears among the processed
/// words.
proof fn lemma_processed_contains(words: Seq<Seq<char>>, t: int)
    requires
        0 <= t < words.len(),
        words[t].len() >= 4,
    ensures
        processed_words(words).contains(folded_seq(words[t])),
{
    let keep = |w: Seq<char>| w.len() >= 4;
    words.lemma_filter_contains(keep, t);
    let kept = words.filter(keep);
    let j = choose|j: int| 0 <= j < kept.len() && kept[j] == words[t];
    assert(processed_words(words)[j] == folded_seq(words[t]));
}

/// Normalization of six distinct letters with a fresh inside letter succeeds
/// and yields the outside letters in ascending order.
pub proof fn lemma_normalization_sorted(outside: Seq<char>, inside: char)
    requires
        outside.len() == 6,
        folded_seq(outside).no_duplicates(),
        forall|j: int| 0 <= j < outside.len() ==> is_alpha(#[trigger] outside[j]),
        !folded_seq(outside).contains(folded(inside)),
    ensures
        sanitize_ok(outside),
        validate_ok(sanitized_outside(outside), folded(inside)),
        sorted_chars(sanitized_outside(outside)),
{
    lemma_char_le_total();
    let f = folded_seq(outside);
    let o = sanitized_outside(outside);
    f.lemma_sort_by_ensures(char_le());
    crate::sorting::lemma_multiset_eq_len(o, f);
    assert(o.len() == f.len());
    assert forall|j: int| 0 <= j < o.len() implies is_alpha(#[trigger] o[j]) by {
        assert(o.contains(o[j]));
        assert(o.to_multiset().count(o[j]) > 0);
        assert(f.contains(o[j]));
        let p = choose|p: int| 0 <= p < f.len() && f[p] == o[j];
        assert(f[p] == folded(outside[p]));
        assert(is_alpha(outside[p]));
    }
    assert(!o.contains(folded(inside))) by {
        if o.contains(folded(inside)) {
            assert(o.to_multiset().count(folded(inside)) > 0);
            assert(f.contains(folded(inside)));
        }
    }
}

/// Normalization is idempotent: normalizing its own output changes nothing.
pub proof fn lemma_normalization_idempotent(outside: Seq<char>, inside: char)
    requires
        sanitize_ok(outside),
    ensures
        sanitize_ok(sanitized_outside(outside)),
        sanitized_outside(sanitized_outside(outside)) == sanitized_outside(outside),
        folded(folded(inside)) == folded(inside),
{
    lemma_char_le_total();
    let f = folded_seq(outside);
    let o = sanitized_outside(outside);
    f.lemma_sort_by_ensures(char_le());
    lemma_multiset_eq_no_duplicates(f, o);
    assert(folded_seq(o) =~= o) by {
        assert forall|j: int| 0 <= j < o.len() implies folded_seq(o)[j] == o[j] by {
            assert(o.contains(o[j]));
            assert(o.to_multiset().count(o[j]) > 0);
            assert(f.contains(o[j]));
            let p = choose|p: int| 0 <= p < f.len() && f[p] == o[j];
            assert(f[p] == folded(outside[p]));
            crate::letters::lemma_folded_idempotent(outside[p]);
        }
    }
    o.lemma_sort_by_ensures(char_le());
    lemma_sorted_unique(o.sort_by(char_le()), o, char_le());
    crate::letters::lemma_folded_idempotent(inside);
}

/// Exactly 64 signature keys are probed for a six-letter outside set,
/// whatever the dictionary.
pub proof fn lemma_sixty_four_keys(outside: Seq<char>, inside: char)
    requires
        outside.len() == 6,
    ensures
        puzzle_keys(sanitized_outside(outside), folded(inside)).len() == 64,
{
    lemma_char_le_total();
    let f = folded_seq(outside);
    f.lemma_sort_by_ensures(char_le());
    crate::sorting::lemma_multiset_eq_len(sanitized_outside(outside), f);
    assert(sanitized_outside(outside).len() == 6);
    lemma_sixty_four_combos(sanitized_outside(outside));
}

/// A dictionary word made only of the puzzle's seven letters, holding the
/// inside letter, and at least four characters long, is in the solution.
pub proof fn lemma_solve_includes(
    outside: Seq<char>,
    inside: char,
    words: Seq<Seq<char>>,
    w: Seq<char>,
)
    requires
        sanitize_ok(outside),
        validate_ok(sanitized_outside(outside), folded(inside)),
        words.contains(w),
        w.len() >= 4,
        folded_seq(w).to_set().subset_of(
            sanitized_outside(outside).to_set().insert(folded(inside)),
        ),
        folded_seq(w).to_set().contains(folded(inside)),
    ensures
        solve_spec(outside, inside, words).contains(folded_seq(w)),
{
    lemma_char_le_total();
    let o = sanitized_outside(outside);
    let i = folded(inside);
    let f = folded_seq(w);
    let fo = folded_seq(outside);
    fo.lemma_sort_by_ensures(char_le());
    lemma_multiset_eq_no_duplicates(fo, o);
    let t = choose|t: int| 0 <= t < words.len() && words[t] == w;
    lemma_processed_contains(words, t);
    let p = processed_words(words);
    let pj = choose|pj: int| 0 <= pj < p.len() && p[pj] == f;
    let k = signature_of(f);
    let m = index_map(words);
    assert(m.contains_key(k)) by {
        assert(is_signature(k, p[pj]));
    }
    assert(m[k] == p.filter(|x: Seq<char>| is_signature(k, x)));
    assert(m[k].contains(f)) by {
        p.lemma_filter_contains(|x: Seq<char>| is_signature(k, x), pj);
    }
    lemma_keys_complete(o, i, k);
    let keys = puzzle_keys(o, i);
    let kj = choose|kj: int| 0 <= kj < keys.len() && keys[kj] == k;
    lemma_gather_contains(keys, m, kj, f);
}

/// Every word in the solution is the folded form of a dictionary word of at
/// least four characters, is made only of the puzzle's seven letters, and
/// holds the inside letter.
pub proof fn lemma_solve_elements(
    outside: Seq<char>,
    inside: char,
    words: Seq<Seq<char>>,
    v: Seq<char>,
)
    requires
        sanitize_ok(outside),
        validate_ok(sanitized_outside(outside), folded(inside)),
        solve_spec(outside, inside, words).contains(v),
    ensures
        exists|t: int|
            0 <= t < words.len() && (#[trigger] words[t]).len() >= 4 && v == folded_seq(words[t]),
        v.len() >= 4,
        v.to_set().subset_of(sanitized_outside(outside).to_set().insert(folded(inside))),
        v.to_set().contains(folded(inside)),
{
    lemma_char_le_total();
    let o = sanitized_outside(outside);
    let i = folded(inside);
    let keys = puzzle_keys(o, i);
    let m = index_map(words);
    let p = processed_words(words);
    lemma_gather_sound(keys, m, v);
    let j = choose|j: int|
        0 <= j < keys.len() && m.contains_key(#[trigger] keys[j]) && m[keys[j]].contains(v);
    assert(m[keys[j]] == p.filter(|x: Seq<char>| is_signature(keys[j], x)));
    let sig = |x: Seq<char>| is_signature(keys[j], x);
    let bucket = p.filter(sig);
    let bi = choose|bi: int| 0 <= bi < bucket.len() && bucket[bi] == v;
    assert(sig(bucket[bi]));
    assert(is_signature(keys[j], v));
    assert(p.contains(v)) by {
        p.lemma_filter_contains_rev(sig, v);
    }
    lemma_processed_elem_len(words, v);
    lemma_keys_sound(o, i, j);
    assert(v.to_set() == keys[j].to_set());
    let keep = |w: Seq<char>| w.len() >= 4;
    let kept = words.filter(keep);
    let pj = choose|pj: int| 0 <= pj < p.len() && p[pj] == v;
    assert(p[pj] == folded_seq(kept[pj]));
    assert(keep(kept[pj]));
    assert(kept.contains(kept[pj]));
    assert(words.contains(kept[pj])) by {
        words.lemma_filter_contains_rev(keep, kept[pj]);
    }
    let t = choose|t: int| 0 <= t < words.len() && words[t] == kept[pj];
    assert(words[t].len() >= 4 && v == folded_seq(words[t]));
}

/// A word that is too short, that uses a letter outside the puzzle's seven,
/// or that omits the inside letter, is not in the solution.
pub proof fn lemma_solve_excludes(
    outside: Seq<char>,
    inside: char,
    words: Seq<Seq<char>>,
    w: Seq<char>,
)
    requires
        sanitize_ok(outside),
        validate_ok(sanitized_outside(outside), folded(inside)),
        w.len() < 4 || !folded_seq(w).to_set().subset_of(
            sanitized_outside(outside).to_set().insert(folded(inside)),
        ) || !folded_seq(w).to_set().contains(folded(inside)),
    ensures
        !solve_spec(outside, inside, words).contains(folded_seq(w)),
{
    if solve_spec(outside, inside, words).contains(folded_seq(w)) {
        lemma_solve_elements(outside, inside, words, folded_seq(w));
        assert(w.len() == folded_seq(w).len());
        assert(false);
    }
}

} // verus!
