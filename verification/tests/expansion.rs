//! Full expansion: ordering, priorities, variables, hidden permutations,
//! exact decimal ranges, and the two expansion errors.

use prompt_lang::grammar::parse_prompt;

fn expand_all(input: &str) -> Vec<String> {
    parse_prompt(input).expect(input).fully_expand().expect(input)
}

fn expand_err(input: &str) -> String {
    parse_prompt(input)
        .expect(input)
        .fully_expand()
        .expect_err(input)
        .message
}

#[test]
fn plain_text_expands_to_itself() {
    assert_eq!(expand_all("abc"), vec!["abc"]);
}

#[test]
fn single_disjunction() {
    assert_eq!(expand_all("{cat|dog}"), vec!["cat", "dog"]);
}

#[test]
fn nesting_order_is_left_to_right() {
    assert_eq!(
        expand_all("{cat|dog} and {red|blue}"),
        vec!["cat and red", "cat and blue", "dog and red", "dog and blue"]
    );
}

#[test]
fn unordered_resolves_before_ordered() {
    assert_eq!(
        expand_all("{cat|dog} and {1:red|blue}"),
        vec!["cat and red", "cat and blue", "dog and red", "dog and blue"]
    );
}

#[test]
fn explicit_priority_reorders() {
    // priority 0 resolves first and so becomes the outermost loop: the
    // outputs group by the second site's value, unlike the unordered case
    assert_eq!(
        expand_all("{1:cat|dog} and {0:red|blue}"),
        vec!["cat and red", "dog and red", "cat and blue", "dog and blue"]
    );
}

#[test]
fn integer_range() {
    assert_eq!(expand_all("{1;3;1}"), vec!["1", "2", "3"]);
}

#[test]
fn descending_range() {
    assert_eq!(expand_all("{3;1;-1}"), vec!["3", "2", "1"]);
}

#[test]
fn variable_reuse_with_hidden_suppression() {
    assert_eq!(expand_all("a {i}{1:i:cat|dog}!"), vec!["a cat", "a dog"]);
}

#[test]
fn decimal_range_in_text() {
    assert_eq!(
        expand_all("a (red:{0.0;1.0;0.3}) cat"),
        vec![
            "a (red:0.0) cat",
            "a (red:0.3) cat",
            "a (red:0.6) cat",
            "a (red:0.9) cat"
        ]
    );
}

#[test]
fn decimal_range_is_inclusive_and_exact() {
    assert_eq!(
        expand_all("{0.0;1.0;0.1}"),
        vec!["0.0", "0.1", "0.2", "0.3", "0.4", "0.5", "0.6", "0.7", "0.8", "0.9", "1.0"]
    );
}

#[test]
fn hidden_variable_substitutes_every_site() {
    assert_eq!(
        expand_all("{<animal>:cat|dog}! a {<animal>} with another {<animal>}"),
        vec![" a cat with another cat", " a dog with another dog"]
    );
}

#[test]
fn unbound_variable_names_the_variable() {
    let msg = expand_err("{i}");
    assert_eq!(msg, "Variable i is never defined");
}

#[test]
fn all_unbound_variables_are_aggregated() {
    let msg = expand_err("{i} and {j}");
    assert_eq!(
        msg,
        "Variable i is never defined; Variable j is never defined"
    );
}

#[test]
fn hidden_without_use_fails() {
    let msg = expand_err("{cat|dog}!");
    assert_eq!(msg, "hidden permutation has no visible use");
}

#[test]
fn hidden_with_unused_binding_fails() {
    let msg = expand_err("{i:cat|dog}!");
    assert_eq!(msg, "hidden permutation has no visible use");
}

#[test]
fn count_is_product_of_value_counts() {
    let out = expand_all("{a|b|c} {x|y} {1;4;1}");
    assert_eq!(out.len(), 3 * 2 * 4);
}

#[test]
fn singleton_range_with_equal_bounds() {
    assert_eq!(expand_all("{2;2;1}"), vec!["2"]);
}
