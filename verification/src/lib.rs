use vstd::prelude::*;
use vstd::string::StringExecFns;

pub mod letters;
pub mod sorting;
pub mod text;
pub mod spelling_bee_service;
pub mod word_index;
pub mod laws;

use crate::letters::{folded, fold_char, fold_chars};
use crate::spelling_bee_service::{sanitize_ok, sanitized_outside, validate_ok, unique_message,
    count_message, alpha_message, center_message};

pub use crate::spelling_bee_service::{get_solution, get_permutations, process_word_list,
    sanitize_and_validate};

verus! {

/// A fixed greeting, kept as the crate's smoke check.
pub fn _hello() -> (r: String)
    ensures
        r@ == "Hello, world!"@,
{
    String::from_str("Hello, world!")
}

/// Case-fold the puzzle letters and reject repeated outside letters. The
/// outside letters come back folded and in ascending order; the inside letter
/// comes back folded.
pub fn sanitize_input(outside_chars: Vec<char>, inside_char: char) -> (r: Result<
    (Vec<char>, char),
    String,
>)
    ensures
        sanitize_ok(outside_chars@) <==> r is Ok,
        r is Ok ==> r->Ok_0.0@ == sanitized_outside(outside_chars@),
        r is Ok ==> r->Ok_0.1 == folded(inside_char),
        r is Err ==> r->Err_0@ == unique_message(),
{
    let f = fold_chars(&outside_chars);
    if crate::sorting::has_duplicate(&f) {
        return Err(String::from_str("all outside characters must be unique"));
    }
    let sorted_outside = crate::sorting::sort_chars(&f);
    Ok((sorted_outside, fold_char(inside_char)))
}

/// Check the puzzle letters, handing the same borrows back on success. The
/// checks and their error texts are those of
/// [`spelling_bee_service::validate_input`].
pub fn validate_input<'a>(outside_chars: &'a Vec<char>, inside_char: &'a char) -> (r: Result<
    (&'a Vec<char>, &'a char),
    String,
>)
    ensures
        validate_ok(outside_chars@, *inside_char) <==> r is Ok,
        r is Ok ==> r->Ok_0.0 == outside_chars && r->Ok_0.1 == inside_char,
        outside_chars@.len() != 6 ==> r is Err && r->Err_0@ == count_message(outside_chars@.len()),
        outside_chars@.len() == 6 && (exists|j: int|
            0 <= j < 6 && !crate::letters::is_alpha(#[trigger] outside_chars@[j])) ==> r is Err
            && r->Err_0@ == alpha_message(),
        outside_chars@.len() == 6 && (forall|j: int|
            0 <= j < 6 ==> crate::letters::is_alpha(#[trigger] outside_chars@[j]))
            && outside_chars@.contains(*inside_char) ==> r is Err && r->Err_0@ == center_message(),
{
    match crate::spelling_bee_service::validate_input(outside_chars, inside_char) {
        Ok(()) => Ok((outside_chars, inside_char)),
        Err(e) => Err(e),
    }
}

} // verus!
