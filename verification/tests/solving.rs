use nyt_spelling_bee_solver::{get_permutations, get_solution, process_word_list};

fn dictionary(words: &[&str]) -> Vec<String> {
    let mut out: Vec<String> = Vec::new();
    for w in words {
        out.push(w.to_string());
    }
    out
}

#[test]
fn get_permutations_probes_sixty_four_keys() {
    let keys = get_permutations(vec!['a', 'b', 'c', 'd', 'e', 'f'], 'g');
    assert_eq!(64, keys.len());
}

#[test]
fn get_permutations_orders_keys_by_size_then_position() {
    let keys = get_permutations(vec!['a', 'b', 'c', 'd', 'e', 'f'], 'g');
    // the empty combination comes first, joined with the center letter
    assert_eq!("g", keys[0]);
    // then the six single-letter combinations, in position order
    assert_eq!("ag", keys[1]);
    assert_eq!("bg", keys[2]);
    assert_eq!("fg", keys[6]);
    // the full combination comes last
    assert_eq!("abcdefg", keys[63]);
}

#[test]
fn get_permutations_sorts_each_key() {
    let keys = get_permutations(vec!['f', 'e', 'd', 'c', 'b', 'a'], 'g');
    // every key holds its characters in ascending order, wherever the center
    // letter falls; the outside letters were handed over descending
    for key in &keys {
        let chars: Vec<char> = key.chars().collect();
        for w in chars.windows(2) {
            assert!(w[0] < w[1]);
        }
    }
}

#[test]
fn process_word_list_groups_by_signature_and_folds() {
    let index = process_word_list(&dictionary(&["tool", "Loot", "cat", "opts", "stop"]));
    // "tool" and "Loot" share the signature "lot"; "cat" is too short
    assert_eq!(
        Some(&vec!["tool".to_string(), "loot".to_string()]),
        index.get(&"lot".to_string())
    );
    assert_eq!(
        Some(&vec!["opts".to_string(), "stop".to_string()]),
        index.get(&"opst".to_string())
    );
    assert_eq!(None, index.get(&"act".to_string()));
}

#[test]
fn get_solution_concrete_puzzle() {
    let words = dictionary(&["cabbage", "face", "bead", "gag", "abcdefg"]);
    let result = get_solution(vec!['a', 'b', 'c', 'd', 'e', 'f'], 'g', &words);
    // "face" and "bead" omit the center letter, "gag" is too short
    assert_eq!(vec!["cabbage".to_string(), "abcdefg".to_string()], result);
}

#[test]
fn get_solution_includes_words_of_the_seven_letters() {
    let words = dictionary(&["Deaf", "fade", "faded"]);
    let result = get_solution(vec!['a', 'b', 'c', 'e', 'f', 'g'], 'd', &words);
    assert_eq!(
        vec!["deaf".to_string(), "fade".to_string(), "faded".to_string()],
        result
    );
}

#[test]
fn get_solution_excludes_foreign_letters_short_words_and_missing_center() {
    let words = dictionary(&["axed", "dab", "beef", "decade"]);
    // "axed" uses 'x', "dab" is short, "beef" omits the center 'd'
    let result = get_solution(vec!['a', 'b', 'c', 'e', 'f', 'g'], 'd', &words);
    assert_eq!(vec!["decade".to_string()], result);
}

#[test]
fn get_solution_empty_dictionary_gives_empty_result() {
    let words: Vec<String> = Vec::new();
    let result = get_solution(vec!['a', 'b', 'c', 'd', 'e', 'f'], 'g', &words);
    assert_eq!(Vec::<String>::new(), result);
}

#[test]
fn get_solution_keeps_dictionary_duplicates() {
    let words = dictionary(&["gaff", "gaff"]);
    let result = get_solution(vec!['a', 'b', 'c', 'd', 'e', 'f'], 'g', &words);
    assert_eq!(vec!["gaff".to_string(), "gaff".to_string()], result);
}

#[test]
fn get_solution_folds_puzzle_and_dictionary() {
    let words = dictionary(&["FACED", "cAgE"]);
    let result = get_solution(vec!['A', 'B', 'C', 'D', 'E', 'F'], 'G', &words);
    // "faced" omits 'g'; "cage" holds it
    assert_eq!(vec!["cage".to_string()], result);
}
