use vstd::prelude::*;
use vstd::string::StringExecFns;

use crate::letters::{folded, folded_seq, is_alpha, alpha_char, fold_char, fold_chars};
use crate::sorting::{char_le, is_signature, sort_chars, signature_chars, contains_char,
    has_duplicate, copy_chars, lemma_signature_unique};
use crate::text::{chars_to_string, str_to_chars, dec_rep, usize_to_string};
use crate::word_index::WordIndex;

verus! {

/// Whether the outside letters survive sanitization: after case folding they
/// must be pairwise distinct.
pub open spec fn sanitize_ok(outside: Seq<char>) -> bool {
    folded_seq(outside).no_duplicates()
}

/// The canonical outside letters: case-folded and in ascending order.
pub open spec fn sanitized_outside(outside: Seq<char>) -> Seq<char> {
    folded_seq(outside).sort_by(char_le())
}

/// Whether a sanitized puzzle passes validation: exactly six outside letters,
/// all English letters, and the inside letter not among them.
pub open spec fn validate_ok(outside: Seq<char>, inside: char) -> bool {
    &&& outside.len() == 6
    &&& forall|j: int| 0 <= j < outside.len() ==> is_alpha(#[trigger] outside[j])
    &&& !outside.contains(inside)
}

/// The error text for outside letters that repeat.
pub open spec fn unique_message() -> Seq<char> {
    "all outside characters must be unique"@
}

/// The error text for a wrong number of outside letters.
pub open spec fn count_message(n: nat) -> Seq<char> {
    "expected 6 outside characters, received "@ + dec_rep(n)
}

/// The error text for an outside character that is no English letter.
pub open spec fn alpha_message() -> Seq<char> {
    "all outside characters are expected to be english letters from a to z"@
}

/// The error text for an inside letter that repeats an outside letter.
pub open spec fn center_message() -> Seq<char> {
    "the inside character cannot be included in the outside characters"@
}

/// Case-fold the puzzle letters, reject repeated outside letters, and return
/// the outside letters in ascending order together with the folded inside
/// letter.
pub fn sanitize_input(outside_chars: &Vec<char>, inside_char: &char) -> (r: Result<
    (Vec<char>, char),
    String,
>)
    ensures
        sanitize_ok(outside_chars@) <==> r is Ok,
        r is Ok ==> r->Ok_0.0@ == sanitized_outside(outside_chars@),
        r is Ok ==> r->Ok_0.1 == folded(*inside_char),
        r is Err ==> r->Err_0@ == unique_message(),
{
    let f = fold_chars(outside_chars);
    if has_duplicate(&f) {
        return Err(String::from_str("all outside characters must be unique"));
    }
    let sorted_outside = sort_chars(&f);
    Ok((sorted_outside, fold_char(*inside_char)))
}

/// Check a sanitized puzzle: six outside letters, all English letters, and an
/// inside letter that is not one of them. Each failed check reports its own
/// error text, in this order.
pub fn validate_input(outside_chars: &Vec<char>, inside_char: &char) -> (r: Result<(), String>)
    ensures
        validate_ok(outside_chars@, *inside_char) <==> r is Ok,
        outside_chars@.len() != 6 ==> r is Err && r->Err_0@ == count_message(outside_chars@.len()),
        outside_chars@.len() == 6 && (exists|j: int|
            0 <= j < 6 && !is_alpha(#[trigger] outside_chars@[j])) ==> r is Err && r->Err_0@
            == alpha_message(),
        outside_chars@.len() == 6 && (forall|j: int|
            0 <= j < 6 ==> is_alpha(#[trigger] outside_chars@[j])) && outside_chars@.contains(
            *inside_char,
        ) ==> r is Err && r->Err_0@ == center_message(),
{
    if outside_chars.len() != 6 {
        let mut m = String::from_str("expected 6 outside characters, received ");
        let numeral = usize_to_string(outside_chars.len());
        m.append(numeral.as_str());
        return Err(m);
    }
    let mut i: usize = 0;
    while i < outside_chars.len()
        invariant
            0 <= i <= outside_chars@.len(),
            outside_chars@.len() == 6,
            forall|j: int| 0 <= j < i ==> is_alpha(#[trigger] outside_chars@[j]),
        decreases outside_chars@.len() - i,
    {
        if !alpha_char(outside_chars[i]) {
            return Err(
                String::from_str("all outside characters are expected to be english letters from a to z"),
            );
        }
        i += 1;
    }
    if contains_char(outside_chars, *inside_char) {
        return Err(
            String::from_str("the inside character cannot be included in the outside characters"),
        );
    }
    Ok(())
}

/// Sanitize and validate the puzzle letters, handing back the canonical
/// puzzle: the outside letters case-folded in ascending order, and the folded
/// inside letter.
pub fn sanitize_and_validate(outside_chars: Vec<char>, inside_char: char) -> (r: (Vec<char>, char))
    requires
        sanitize_ok(outside_chars@),
        validate_ok(sanitized_outside(outside_chars@), folded(inside_char)),
    ensures
        r.0@ == sanitized_outside(outside_chars@),
        r.1 == folded(inside_char),
{
    let (outside_char, inside_char) = sanitize_input(&outside_chars, &inside_char).unwrap();
    validate_input(&outside_char, &inside_char).unwrap();
    (outside_char, inside_char)
}

/// All combinations that extend `current` with characters of `chars` drawn in
/// increasing position order from position `start` on, up to `length`
/// characters in all, in backtracking order.
pub open spec fn combos(chars: Seq<char>, length: int, start: int, current: Seq<char>) -> Seq<
    Seq<char>,
>
    decreases length - current.len(), chars.len() - start,
{
    if current.len() >= length {
        seq![current]
    } else if start >= chars.len() {
        seq![]
    } else {
        combos(chars, length, start + 1, current.push(chars[start])) + combos(
            chars,
            length,
            start + 1,
            current,
        )
    }
}

/// The combinations of sizes `0` through `k`, smaller sizes first.
pub open spec fn combos_upto(chars: Seq<char>, k: int) -> Seq<Seq<char>>
    decreases k + 1,
{
    if k < 0 {
        seq![]
    } else {
        combos_upto(chars, k - 1) + combos(chars, k, 0, seq![])
    }
}

/// Every combination of the characters of `chars`, by increasing size.
pub open spec fn all_combos(chars: Seq<char>) -> Seq<Seq<char>> {
    combos_upto(chars, chars.len() as int)
}

/// The signature keys probed for a puzzle: every combination of the outside
/// letters, joined with the inside letter and put in ascending order.
pub open spec fn puzzle_keys(outside: Seq<char>, inside: char) -> Seq<Seq<char>> {
    all_combos(outside).map_values(|s: Seq<char>| s.push(inside).sort_by(char_le()))
}

/// The number of ways to choose `k` of `n` items.
pub open spec fn n_choose(n: nat, k: nat) -> nat
    decreases n, k,
{
    if k == 0 {
        1
    } else if n == 0 {
        0
    } else {
        n_choose((n - 1) as nat, (k - 1) as nat) + n_choose((n - 1) as nat, k)
    }
}

/// Counts the combinations: extending `current` to `length` characters from
/// position `start` on can be done in `C(chars.len() - start, length - current.len())`
/// ways.
pub proof fn lemma_combos_len(chars: Seq<char>, length: int, start: int, current: Seq<char>)
    requires
        0 <= start <= chars.len(),
        0 <= current.len() <= length,
    ensures
        combos(chars, length, start, current).len() == n_choose(
            (chars.len() - start) as nat,
            (length - current.len()) as nat,
        ),
    decreases length - current.len(), chars.len() - start,
{
    if current.len() >= length {
    } else if start >= chars.len() {
    } else {
        lemma_combos_len(chars, length, start + 1, current.push(chars[start]));
        lemma_combos_len(chars, length, start + 1, current);
    }
}

/// A six-letter outside set yields exactly 64 combinations.
pub proof fn lemma_sixty_four_combos(outside: Seq<char>)
    requires
        outside.len() == 6,
    ensures
        all_combos(outside).len() == 64,
{
    reveal_with_fuel(n_choose, 9);
    assert(n_choose(6, 0) == 1);
    assert(n_choose(6, 1) == 6);
    assert(n_choose(6, 2) == 15);
    assert(n_choose(6, 3) == 20);
    assert(n_choose(6, 4) == 15);
    assert(n_choose(6, 5) == 6);
    assert(n_choose(6, 6) == 1);
    lemma_combos_len(outside, 0, 0, seq![]);
    lemma_combos_len(outside, 1, 0, seq![]);
    lemma_combos_len(outside, 2, 0, seq![]);
    lemma_combos_len(outside, 3, 0, seq![]);
    lemma_combos_len(outside, 4, 0, seq![]);
    lemma_combos_len(outside, 5, 0, seq![]);
    lemma_combos_len(outside, 6, 0, seq![]);
    reveal_with_fuel(combos_upto, 9);
}

/// Emit into `permutations` every combination that extends `current` with
/// characters of `chars` from position `start` on, up to `length` characters
/// in all, in backtracking order. `current` is left as it was found.
fn generate_combinations(
    chars: &Vec<char>,
    length: usize,
    start: usize,
    current_combinations: &mut Vec<char>,
    permutations: &mut Vec<Vec<char>>,
)
    requires
        old(current_combinations)@.len() <= length,
    ensures
        final(current_combinations)@ == old(current_combinations)@,
        final(permutations).deep_view() == old(permutations).deep_view() + combos(
            chars@,
            length as int,
            start as int,
            old(current_combinations)@,
        ),
    decreases length - old(current_combinations)@.len(), chars@.len() - start,
{
    let ghost orig_perms = permutations.deep_view();
    let ghost cur = current_combinations@;
    if current_combinations.len() == length {
        let snapshot = copy_chars(current_combinations);
        permutations.push(snapshot);
        proof {
            assert(snapshot.deep_view() =~= cur);
            assert(permutations.deep_view() =~= orig_perms + seq![cur]);
        }
        return ;
    }
    let mut i: usize = start;
    while i < chars.len()
        invariant
            start <= i,
            i <= chars@.len() || i == start,
            cur.len() < length,
            cur == old(current_combinations)@,
            current_combinations@ == cur,
            permutations.deep_view() + combos(chars@, length as int, i as int, cur) == orig_perms
                + combos(chars@, length as int, start as int, cur),
        decreases chars@.len() - i,
    {
        let ghost before = permutations.deep_view();
        let c = chars[i];
        current_combinations.push(c);
        generate_combinations(chars, length, i + 1, current_combinations, permutations);
        current_combinations.pop();
        proof {
            assert(current_combinations@ =~= cur);
            assert(combos(chars@, length as int, i as int, cur) == combos(
                chars@,
                length as int,
                i + 1,
                cur.push(c),
            ) + combos(chars@, length as int, i + 1, cur));
            assert(permutations.deep_view() + combos(chars@, length as int, i + 1, cur) =~= orig_perms
                + combos(chars@, length as int, start as int, cur));
        }
        i += 1;
    }
    proof {
        assert(combos(chars@, length as int, i as int, cur) =~= Seq::<Seq<char>>::empty());
        assert(permutations.deep_view() =~= orig_perms + combos(
            chars@,
            length as int,
            start as int,
            cur,
        ));
    }
}

/// Every signature key that a puzzle probes: each combination of the outside
/// letters joined with the inside letter, as an ascending string, smaller
/// combinations first.
pub fn get_permutations(outside_chars: Vec<char>, inside_char: char) -> (r: Vec<String>)
    ensures
        r.deep_view() == puzzle_keys(outside_chars@, inside_char),
        outside_chars@.len() == 6 ==> r@.len() == 64,
{
    let mut combinations: Vec<Vec<char>> = Vec::new();
    let mut length: usize = 0;
    loop
        invariant_except_break
            length <= outside_chars@.len(),
            combinations.deep_view() == combos_upto(outside_chars@, length as int - 1),
        ensures
            combinations.deep_view() == all_combos(outside_chars@),
        decreases outside_chars@.len() - length,
    {
        let mut current_combination: Vec<char> = Vec::new();
        generate_combinations(&outside_chars, length, 0, &mut current_combination, &mut combinations);
        proof {
            assert(combinations.deep_view() =~= combos_upto(outside_chars@, length as int));
        }
        if length == outside_chars.len() {
            break ;
        }
        length += 1;
    }
    let ghost keys = puzzle_keys(outside_chars@, inside_char);
    proof {
        assert(combinations.deep_view() == all_combos(outside_chars@));
        assert(keys.len() == all_combos(outside_chars@).len());
    }
    let mut result: Vec<String> = Vec::new();
    let mut idx: usize = 0;
    while idx < combinations.len()
        invariant
            0 <= idx <= combinations@.len(),
            combinations.deep_view() == all_combos(outside_chars@),
            keys == puzzle_keys(outside_chars@, inside_char),
            result.deep_view() == keys.take(idx as int),
        decreases combinations@.len() - idx,
    {
        let mut with_center = copy_chars(&combinations[idx]);
        proof {
            assert(with_center@ == combinations.deep_view()[idx as int]);
        }
        with_center.push(inside_char);
        let key_chars = sort_chars(&with_center);
        let key = chars_to_string(&key_chars);
        let ghost prev = result.deep_view();
        result.push(key);
        proof {
            assert(key@ == keys[idx as int]);
            assert(result.deep_view() =~= prev.push(key@));
            assert(result.deep_view() =~= keys.take(idx + 1));
        }
        idx += 1;
    }
    proof {
        assert(result.deep_view() =~= keys);
        if outside_chars@.len() == 6 {
            lemma_sixty_four_combos(outside_chars@);
        }
    }
    result
}

/// The words that reach the index: those of at least four characters,
/// case-folded.
pub open spec fn processed_words(words: Seq<Seq<char>>) -> Seq<Seq<char>> {
    words.filter(|w: Seq<char>| w.len() >= 4).map_values(|w: Seq<char>| folded_seq(w))
}

/// The index a word list yields: every signature key of a processed word,
/// mapped to exactly the processed words with that signature, in word order.
pub open spec fn index_map(words: Seq<Seq<char>>) -> Map<Seq<char>, Seq<Seq<char>>> {
    Map::new(
        |k: Seq<char>|
            exists|j: int|
                0 <= j < processed_words(words).len() && is_signature(
                    k,
                    #[trigger] processed_words(words)[j],
                ),
        |k: Seq<char>| processed_words(words).filter(|w: Seq<char>| is_signature(k, w)),
    )
}

/// Appending a word to the list appends its folded form to the processed
/// words, or nothing when it is too short.
proof fn lemma_processed_push(words: Seq<Seq<char>>, w: Seq<char>)
    ensures
        w.len() < 4 ==> processed_words(words.push(w)) == processed_words(words),
        w.len() >= 4 ==> processed_words(words.push(w)) == processed_words(words).push(
            folded_seq(w),
        ),
{
    reveal(Seq::filter);
    let keep = |x: Seq<char>| x.len() >= 4;
    assert(words.push(w).drop_last() =~= words);
    assert(words.push(w).last() == w);
    if w.len() < 4 {
        assert(words.push(w).filter(keep) == words.filter(keep));
        assert(processed_words(words.push(w)) =~= processed_words(words));
    } else {
        assert(words.push(w).filter(keep) == words.filter(keep).push(w));
        assert(processed_words(words.push(w)) =~= processed_words(words).push(folded_seq(w)));
    }
}

/// The index depends on the word list only through its processed words.
proof fn lemma_index_map_congruence(a: Seq<Seq<char>>, b: Seq<Seq<char>>)
    requires
        processed_words(a) == processed_words(b),
    ensures
        index_map(a) == index_map(b),
{
    assert(index_map(a) =~= index_map(b));
}

/// Appending an eligible word files its folded form under its signature key
/// and changes nothing else.
proof fn lemma_index_map_step(words: Seq<Seq<char>>, w: Seq<char>, k: Seq<char>)
    requires
        w.len() >= 4,
        is_signature(k, folded_seq(w)),
    ensures
        index_map(words.push(w)) == (if index_map(words).contains_key(k) {
            index_map(words).insert(k, index_map(words)[k].push(folded_seq(w)))
        } else {
            index_map(words).insert(k, seq![folded_seq(w)])
        }),
{
    lemma_processed_push(words, w);
    let f = folded_seq(w);
    let p = processed_words(words);
    let p2 = processed_words(words.push(w));
    let m = index_map(words);
    let m2 = index_map(words.push(w));
    assert(p2 == p.push(f));
    assert forall|k2: Seq<char>| is_signature(k2, f) implies k2 == k by {
        lemma_signature_unique(k2, k, f);
    }
    assert forall|k2: Seq<char>| #[trigger] m2.contains_key(k2) implies m.contains_key(k2) || k2
        == k by {
        let j = choose|j: int| 0 <= j < p2.len() && is_signature(k2, #[trigger] p2[j]);
        if j < p.len() {
            assert(is_signature(k2, p[j]));
        } else {
            assert(p2[j] == f);
        }
    }
    assert forall|k2: Seq<char>| m.contains_key(k2) implies m2.contains_key(k2) by {
        let j = choose|j: int| 0 <= j < p.len() && is_signature(k2, #[trigger] p[j]);
        assert(p2[j] == p[j]);
    }
    assert(m2.contains_key(k)) by {
        assert(p2[p.len() as int] == f);
    }
    reveal(Seq::filter);
    assert(p2.drop_last() =~= p && p2.last() == f);
    assert forall|k2: Seq<char>| #[trigger] m2.contains_key(k2) && k2 != k implies m.contains_key(
        k2,
    ) && m2[k2] == m[k2] by {
        assert(!is_signature(k2, f));
        assert(p2.filter(|x: Seq<char>| is_signature(k2, x)) == p.filter(
            |x: Seq<char>| is_signature(k2, x),
        ));
    }
    assert(p2.filter(|x: Seq<char>| is_signature(k, x)) == p.filter(
        |x: Seq<char>| is_signature(k, x),
    ).push(f));
    if m.contains_key(k) {
        assert(m2[k] == m[k].push(f));
        assert(m2 =~= m.insert(k, m[k].push(f)));
    } else {
        assert(p.all(|x: Seq<char>| !is_signature(k, x))) by {
            assert forall|j: int| 0 <= j < p.len() implies !is_signature(k, #[trigger] p[j]) by {
                if is_signature(k, p[j]) {
                    assert(m.contains_key(k));
                }
            }
        }
        p.lemma_all_neg_filter_empty(|x: Seq<char>| is_signature(k, x));
        assert(p.filter(|x: Seq<char>| is_signature(k, x)) =~= Seq::<Seq<char>>::empty());
        assert(m2[k] =~= seq![f]);
        assert(m2 =~= m.insert(k, seq![f]));
    }
}

/// Build the dictionary index: skip words shorter than four characters, fold
/// the rest to lower case, and file each under its signature key, first-seen
/// keys first and words in their given order.
pub fn process_word_list(word_list: &Vec<String>) -> (r: WordIndex)
    ensures
        r.wf(),
        r@ == index_map(word_list.deep_view()),
{
    let mut index = WordIndex::new();
    proof {
        assert(index@ =~= index_map(word_list.deep_view().take(0)));
    }
    let mut t: usize = 0;
    while t < word_list.len()
        invariant
            0 <= t <= word_list@.len(),
            index.wf(),
            index@ == index_map(word_list.deep_view().take(t as int)),
        decreases word_list@.len() - t,
    {
        let w = &word_list[t];
        let wc = str_to_chars(w.as_str());
        let ghost wseq = word_list.deep_view()[t as int];
        let ghost prefix = word_list.deep_view().take(t as int);
        proof {
            assert(wc@ == wseq);
            assert(word_list.deep_view().take(t + 1) =~= prefix.push(wseq));
        }
        if wc.len() >= 4 {
            let fw = fold_chars(&wc);
            let key_chars = signature_chars(&fw);
            let key = chars_to_string(&key_chars);
            let folded_word = chars_to_string(&fw);
            index.insert_word(key, folded_word);
            proof {
                lemma_index_map_step(prefix, wseq, key_chars@);
            }
        } else {
            proof {
                lemma_processed_push(prefix, wseq);
                lemma_index_map_congruence(prefix.push(wseq), prefix);
            }
        }
        t += 1;
    }
    proof {
        assert(word_list.deep_view().take(word_list@.len() as int) =~= word_list.deep_view());
    }
    index
}

/// The words that the probed keys pick out of the index, in key order, each
/// key's words in their stored order.
pub open spec fn gather_words(keys: Seq<Seq<char>>, m: Map<Seq<char>, Seq<Seq<char>>>) -> Seq<
    Seq<char>,
>
    decreases keys.len(),
{
    if keys.len() == 0 {
        seq![]
    } else {
        (if m.contains_key(keys[0]) {
            m[keys[0]]
        } else {
            seq![]
        }) + gather_words(keys.drop_first(), m)
    }
}

/// Gathering one more key appends that key's words.
proof fn lemma_gather_push(keys: Seq<Seq<char>>, m: Map<Seq<char>, Seq<Seq<char>>>, k: Seq<char>)
    ensures
        gather_words(keys.push(k), m) == gather_words(keys, m) + (if m.contains_key(k) {
            m[k]
        } else {
            seq![]
        }),
    decreases keys.len(),
{
    reveal_with_fuel(gather_words, 3);
    let bucket = if m.contains_key(k) {
        m[k]
    } else {
        seq![]
    };
    if keys.len() == 0 {
        assert(keys.push(k)[0] == k);
        assert(keys.push(k).drop_first() =~= Seq::<Seq<char>>::empty());
        assert(gather_words(keys.push(k), m) =~= gather_words(keys, m) + bucket);
    } else {
        assert(keys.push(k).drop_first() =~= keys.drop_first().push(k));
        lemma_gather_push(keys.drop_first(), m, k);
        assert(keys.push(k)[0] == keys[0]);
        assert(gather_words(keys.push(k), m) =~= gather_words(keys, m) + bucket);
    }
}

/// The words a normalized puzzle solves to: for each probed key in order, the
/// indexed words under it.
pub open spec fn solve_spec(outside: Seq<char>, inside: char, words: Seq<Seq<char>>) -> Seq<
    Seq<char>,
> {
    gather_words(puzzle_keys(sanitized_outside(outside), folded(inside)), index_map(words))
}

/// Solve a puzzle against the given word list: sanitize and validate the
/// letters, index the words, probe every signature key, and hand back the
/// matching words, in key order and stored order.
pub fn get_solution(outside_chars: Vec<char>, inside_char: char, word_list: &Vec<String>) -> (r:
    Vec<String>)
    requires
        sanitize_ok(outside_chars@),
        validate_ok(sanitized_outside(outside_chars@), folded(inside_char)),
    ensures
        r.deep_view() == solve_spec(outside_chars@, inside_char, word_list.deep_view()),
{
    let ghost keys = puzzle_keys(sanitized_outside(outside_chars@), folded(inside_char));
    let ghost m = index_map(word_list.deep_view());
    let (sanitized_outside_chars, sanitized_inside_char) = sanitize_input(
        &outside_chars,
        &inside_char,
    ).unwrap();
    validate_input(&sanitized_outside_chars, &sanitized_inside_char).unwrap();
    let hash_map_of_valid_words = process_word_list(word_list);
    let permutations = get_permutations(sanitized_outside_chars, sanitized_inside_char);
    let mut result: Vec<String> = Vec::new();
    let mut pi: usize = 0;
    while pi < permutations.len()
        invariant
            0 <= pi <= permutations@.len(),
            permutations.deep_view() == keys,
            hash_map_of_valid_words.wf(),
            hash_map_of_valid_words@ == m,
            result.deep_view() == gather_words(keys.take(pi as int), m),
        decreases permutations@.len() - pi,
    {
        let ghost pk = keys[pi as int];
        let p = &permutations[pi];
        proof {
            assert(p@ == pk);
        }
        match hash_map_of_valid_words.get(p) {
            Some(ws) => {
                let ghost bucket = m[pk];
                let mut wi: usize = 0;
                while wi < ws.len()
                    invariant
                        0 <= wi <= ws@.len(),
                        ws.deep_view() == bucket,
                        result.deep_view() == gather_words(keys.take(pi as int), m)
                            + bucket.take(wi as int),
                    decreases ws@.len() - wi,
                {
                    let word = ws[wi].clone();
                    let ghost before = result.deep_view();
                    result.push(word);
                    proof {
                        assert(ws.deep_view()[wi as int] == ws@[wi as int]@);
                        assert(result.deep_view() =~= before.push(bucket[wi as int]));
                        assert(bucket.take(wi + 1) =~= bucket.take(wi as int).push(
                            bucket[wi as int],
                        ));
                        assert(result.deep_view() =~= gather_words(keys.take(pi as int), m)
                            + bucket.take(wi + 1));
                    }
                    wi += 1;
                }
                proof {
                    assert(bucket.take(bucket.len() as int) =~= bucket);
                    lemma_gather_push(keys.take(pi as int), m, pk);
                    assert(keys.take(pi + 1) =~= keys.take(pi as int).push(pk));
                }
            },
            None => {
                proof {
                    lemma_gather_push(keys.take(pi as int), m, pk);
                    assert(keys.take(pi + 1) =~= keys.take(pi as int).push(pk));
                    assert(result.deep_view() =~= gather_words(keys.take(pi + 1), m));
                }
            },
        }
        pi += 1;
    }
    proof {
        assert(keys.take(keys.len() as int) =~= keys);
    }
    result
}

} // verus!
