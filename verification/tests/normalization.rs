use nyt_spelling_bee_solver::spelling_bee_service;

#[test]
fn hello_test() {
    assert_eq!(nyt_spelling_bee_solver::_hello(), "Hello, world!".to_string());
}

#[test]
fn lib_validate_input_returns_input_happy_path() {
    let outside_chars: Vec<char> = vec!['a', 'b', 'c', 'd', 'e', 'f'];
    let inside_char = 'g';

    let result = nyt_spelling_bee_solver::validate_input(&outside_chars, &inside_char);

    match result {
        Ok((o, i)) => {
            assert_eq!(o, &outside_chars);
            assert_eq!(i, &inside_char);
        },
        Err(_) => panic!("Expected error, received Ok"),
    }
}

#[test]
fn lib_validate_input_fails_7_outside_chars() {
    let outside_chars: Vec<char> = vec!['a', 'b', 'c', 'd', 'e', 'f', 'g'];
    let inside_char = 'h';

    let result = nyt_spelling_bee_solver::validate_input(&outside_chars, &inside_char);

    match result {
        Ok(_) => panic!("Expected error, received Ok"),
        Err(e) => assert_eq!("expected 6 outside characters, received 7", e),
    }
}

#[test]
fn lib_validate_check_inside_char_in_outside_chars() {
    let outside_chars: Vec<char> = vec!['a', 'b', 'c', 'd', 'e', 'f'];
    let inside_char = 'f';

    let result = nyt_spelling_bee_solver::validate_input(&outside_chars, &inside_char);

    match result {
        Ok(_) => panic!("Expected error, received Ok"),
        Err(e) => assert_eq!("the inside character cannot be included in the outside characters", e),
    }
}

#[test]
fn lib_validate_input_ensure_outside_chars_are_alphabetical() {
    let outside_chars: Vec<char> = vec!['a', 'b', 'c', 'd', 'e', '1'];
    let inside_char = 'h';

    let result = nyt_spelling_bee_solver::validate_input(&outside_chars, &inside_char);

    match result {
        Ok(_) => panic!("Expected error, received Ok"),
        Err(e) => assert_eq!("all outside characters are expected to be english letters from a to z", e),
    }
}

#[test]
fn lib_sanitize_input_set_input_to_lowercase() {
    let outside_chars = vec!['A'];
    let inside_char = 'D';

    let result = nyt_spelling_bee_solver::sanitize_input(outside_chars, inside_char);

    match result {
        Ok((o, i)) => {
            assert_eq!(vec!['a'], o);
            assert_eq!('d', i);
        },
        Err(e) => panic!("Expected Ok, got Error {}", e),
    }
}

#[test]
fn lib_sanitize_input_errors_on_non_unique_outside_chars() {
    let input = vec!['a', 'b', 'c', 'a'];
    let inside_char = 'd';
    assert_eq!(
        nyt_spelling_bee_solver::sanitize_input(input, inside_char),
        Err("all outside characters must be unique".to_string())
    );
}

#[test]
fn spelling_bee_service_validate_input_returns_input_happy_path() {
    let outside_chars: Vec<char> = vec!['a', 'b', 'c', 'd', 'e', 'f'];
    let inside_char = 'g';

    let result = spelling_bee_service::validate_input(&outside_chars, &inside_char);

    match result {
        Ok(_) => (),
        Err(_) => panic!("Expected error, received Ok"),
    }
}

#[test]
fn spelling_bee_service_validate_input_fails_7_outside_chars() {
    let outside_chars: Vec<char> = vec!['a', 'b', 'c', 'd', 'e', 'f', 'g'];
    let inside_char = 'h';

    let result = spelling_bee_service::validate_input(&outside_chars, &inside_char);

    match result {
        Ok(_) => panic!("Expected error, received Ok"),
        Err(e) => assert_eq!("expected 6 outside characters, received 7", e),
    }
}

#[test]
fn spelling_bee_service_validate_check_inside_char_in_outside_chars() {
    let outside_chars: Vec<char> = vec!['a', 'b', 'c', 'd', 'e', 'f'];
    let inside_char = 'f';

    let result = spelling_bee_service::validate_input(&outside_chars, &inside_char);

    match result {
        Ok(_) => panic!("Expected error, received Ok"),
        Err(e) => assert_eq!("the inside character cannot be included in the outside characters", e),
    }
}

#[test]
fn spelling_bee_service_validate_input_ensure_outside_chars_are_alphabetical() {
    let outside_chars: Vec<char> = vec!['a', 'b', 'c', 'd', 'e', '1'];
    let inside_char = 'h';

    let result = spelling_bee_service::validate_input(&outside_chars, &inside_char);

    match result {
        Ok(_) => panic!("Expected error, received Ok"),
        Err(e) => assert_eq!("all outside characters are expected to be english letters from a to z", e),
    }
}

#[test]
fn spelling_bee_service_sanitize_input_set_input_to_lowercase() {
    let outside_chars = vec!['A'];
    let inside_char = 'D';

    let result = spelling_bee_service::sanitize_input(&outside_chars, &inside_char);

    match result {
        Ok((o, i)) => {
            assert_eq!(vec!['a'], o);
            assert_eq!('d', i);
        },
        Err(e) => panic!("Expected Ok, got Error {}", e),
    }
}

#[test]
fn spelling_bee_service_sanitize_input_errors_on_non_unique_outside_chars() {
    let input = vec!['a', 'b', 'c', 'a'];
    let inside_char = 'd';
    assert_eq!(
        spelling_bee_service::sanitize_input(&input, &inside_char),
        Err("all outside characters must be unique".to_string())
    );
}

#[test]
fn sanitize_input_sorts_outside_chars() {
    let input_outside_chars = vec!['b', 'a'];
    let input_inside_char = 'c';

    let (sanitized_outside_chars, sanitized_inside_char) =
        spelling_bee_service::sanitize_input(&input_outside_chars, &input_inside_char).unwrap();
    assert_eq!(vec!['a', 'b'], sanitized_outside_chars);
    assert_eq!('c', sanitized_inside_char);
}

#[test]
fn sanitize_input_folds_and_sorts_six_letters() {
    let outside = vec!['F', 'e', 'D', 'c', 'B', 'a'];
    let (sorted, inside) = spelling_bee_service::sanitize_input(&outside, &'G').unwrap();
    assert_eq!(vec!['a', 'b', 'c', 'd', 'e', 'f'], sorted);
    assert_eq!('g', inside);
}

#[test]
fn sanitize_input_is_idempotent_on_its_output() {
    let outside = vec!['F', 'e', 'D', 'c', 'B', 'a'];
    let (once, inside_once) = spelling_bee_service::sanitize_input(&outside, &'G').unwrap();
    let (twice, inside_twice) =
        spelling_bee_service::sanitize_input(&once, &inside_once).unwrap();
    assert_eq!(once, twice);
    assert_eq!(inside_once, inside_twice);
}

#[test]
fn sanitize_input_detects_duplicates_after_folding() {
    // 'a' and 'A' collapse under folding, so the outside letters repeat; the
    // uniqueness check comes before the count check.
    let outside = vec!['a', 'A', 'b', 'c', 'd', 'f'];
    assert_eq!(
        spelling_bee_service::sanitize_input(&outside, &'g'),
        Err("all outside characters must be unique".to_string())
    );
}

#[test]
fn sanitize_input_duplicate_error_wins_over_count() {
    // Six characters with a repeat: the uniqueness error is reported, not the
    // count of five distinct letters that would remain after collapsing.
    let outside = vec!['a', 'a', 'b', 'c', 'd', 'f'];
    assert_eq!(
        spelling_bee_service::sanitize_input(&outside, &'g'),
        Err("all outside characters must be unique".to_string())
    );
}

#[test]
fn validate_input_reports_count_of_five_distinct_letters() {
    let outside = vec!['a', 'b', 'c', 'd', 'f'];
    assert_eq!(
        spelling_bee_service::validate_input(&outside, &'g'),
        Err("expected 6 outside characters, received 5".to_string())
    );
}

#[test]
fn validate_input_renders_two_digit_counts() {
    let outside = vec!['a', 'b', 'c', 'd', 'e', 'f', 'g', 'h', 'i', 'j', 'k', 'l'];
    assert_eq!(
        spelling_bee_service::validate_input(&outside, &'z'),
        Err("expected 6 outside characters, received 12".to_string())
    );
}

#[test]
fn sanitize_then_validate_rejects_duplicated_center_letter() {
    let outside = vec!['a', 'b', 'c', 'd', 'e', 'f'];
    let (sorted, inside) = spelling_bee_service::sanitize_input(&outside, &'f').unwrap();
    assert_eq!(
        spelling_bee_service::validate_input(&sorted, &inside),
        Err("the inside character cannot be included in the outside characters".to_string())
    );
}

#[test]
fn sanitize_and_validate_returns_sorted_outside_and_folded_inside() {
    let outside = vec!['f', 'e', 'd', 'c', 'b', 'a'];
    let (sanitized_outside, inside) = nyt_spelling_bee_solver::sanitize_and_validate(outside, 'G');
    assert_eq!(vec!['a', 'b', 'c', 'd', 'e', 'f'], sanitized_outside);
    assert_eq!('g', inside);
}

#[test]
fn lib_sanitize_input_sorts_outside_chars() {
    let (sanitized_outside, inside) =
        nyt_spelling_bee_solver::sanitize_input(vec!['b', 'a'], 'c').unwrap();
    assert_eq!(vec!['a', 'b'], sanitized_outside);
    assert_eq!('c', inside);
}
