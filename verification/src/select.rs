//! The generic cascade-step primitive: pick exactly one string out of a
//! candidate set, guided by an optional hint, falling back to an interactive
//! fuzzy-select prompt.

use vstd::prelude::*;
use crate::errors::AppError;
use crate::text::{contains_seq, str_contains};
use vstd::string::StringExecFns;

verus! {

broadcast use crate::text::lemma_vec_deep_index;

/// `items[i]` is the first candidate, in candidate order, that contains the
/// hint `needle` as a substring.
pub open spec fn is_first_match(items: Seq<Seq<char>>, needle: Seq<char>, i: int) -> bool {
    &&& 0 <= i < items.len()
    &&& contains_seq(items[i], needle)
    &&& forall|j: int| 0 <= j < i ==> !contains_seq(#[trigger] items[j], needle)
}

/// Some candidate contains the hint as a substring.
pub open spec fn some_match(items: Seq<Seq<char>>, needle: Seq<char>) -> bool {
    exists|i: int| 0 <= i < items.len() && contains_seq(#[trigger] items[i], needle)
}

/// `chosen` is the first candidate containing the hint `n`.
pub open spec fn chosen_first_match(chosen: Seq<char>, n: Seq<char>, items: Seq<Seq<char>>) -> bool {
    exists|i: int| #[trigger] is_first_match(items, n, i) && chosen == items[i]
}

/// `chosen` is one of the candidates.
pub open spec fn chosen_member(chosen: Seq<char>, items: Seq<Seq<char>>) -> bool {
    exists|i: int| 0 <= i < items.len() && chosen == #[trigger] items[i]
}

/// What a successful resolution may return: with a hint, the first matching
/// candidate; without one, some candidate of the set.
pub open spec fn resolution_ok(chosen: Seq<char>, hint: Option<Seq<char>>, items: Seq<Seq<char>>) -> bool {
    match hint {
        Some(n) => chosen_first_match(chosen, n, items),
        None => chosen_member(chosen, items),
    }
}

/// The first matching candidate is unique: a hinted resolution is
/// deterministic in the candidate set and the hint.
pub proof fn lemma_first_match_unique(items: Seq<Seq<char>>, needle: Seq<char>, i: int, j: int)
    requires
        is_first_match(items, needle, i),
        is_first_match(items, needle, j),
    ensures
        i == j,
{
}

/// Whatever way a resolution succeeds — hint match, silent unique choice or
/// interactive selection — the chosen value is always drawn from the
/// candidate set itself, never from anywhere else (in particular never from
/// the raw hint).
pub proof fn lemma_resolution_is_candidate(
    chosen: Seq<char>,
    hint: Option<Seq<char>>,
    items: Seq<Seq<char>>,
)
    requires
        resolution_ok(chosen, hint, items),
    ensures
        chosen_member(chosen, items),
{
}

/// Relies on dialoguer's `FuzzySelect::interact`: it renders the items, blocks
/// until the operator confirms one, and returns that item's index within the
/// given list; any terminal failure surfaces as an interaction error. Never
/// called with an empty list, on which the prompt could not return a
/// selection.
#[verifier::external_body]
fn fuzzy_select(prompt: &str, items: &Vec<String>) -> (r: Result<usize, AppError>)
    requires
        items@.len() > 0,
    ensures
        r matches Ok(i) ==> i < items@.len(),
        r matches Err(e) ==> e is Interaction,
{
    match dialoguer::FuzzySelect::with_theme(&dialoguer::theme::ColorfulTheme::default())
        .with_prompt(prompt)
        .items(items)
        .interact()
    {
        Ok(i) => Ok(i),
        Err(e) => Err(AppError::Interaction(format!("{}", e))),
    }
}

/// Pick one item of `items`. A single candidate is returned silently; more
/// than one opens an interactive prompt; an empty set is an interaction
/// error, as is an aborted prompt.
pub fn select_item(prompt: &str, items: &Vec<String>) -> (r: Result<String, AppError>)
    ensures
        items@.len() == 1 ==> (r matches Ok(s) && s@ == items.deep_view()[0]),
        items@.len() == 0 ==> r is Err,
        r matches Err(e) ==> e is Interaction,
        r matches Ok(s) ==> (exists|i: int| 0 <= i < items@.len() && s@ == #[trigger] items.deep_view()[i]),
{
    if items.len() == 1 {
        proof {
            assert(items.deep_view()[0] == items@[0]@);
        }
        Ok(items[0].clone())
    } else if items.len() == 0 {
        Err(AppError::Interaction(String::from_str("nothing to select from")))
    } else {
        match fuzzy_select(prompt, items) {
            Ok(i) => {
                proof {
                    assert(items.deep_view()[i as int] == items@[i as int]@);
                }
                Ok(items[i].clone())
            },
            Err(e) => Err(e),
        }
    }
}

/// Resolve one candidate out of `items`:
/// with a hint, the first candidate containing it, else a not-found error
/// carrying the step label and the hint; without a hint, a unique candidate
/// silently, an empty set as an interaction error, several candidates through
/// the interactive prompt.
pub fn find_item(name: &str, needle: &Option<String>, items: Vec<String>) -> (r: Result<String, AppError>)
    ensures
        match needle {
            Some(n) => {
                &&& some_match(items.deep_view(), n@) ==> (r matches Ok(s)
                    && resolution_ok(s@, Some(n@), items.deep_view()))
                &&& !some_match(items.deep_view(), n@) ==> (r matches Err(e)
                    && (e matches AppError::NotFound { label, hint } && label@ == name@
                    && hint@ == n@))
            },
            None => {
                &&& items@.len() == 1 ==> (r matches Ok(s) && s@ == items.deep_view()[0])
                &&& items@.len() == 0 ==> r is Err
                &&& r matches Err(e) ==> e is Interaction
                &&& r matches Ok(s) ==> resolution_ok(s@, None, items.deep_view())
            },
        },
{
    match needle.as_ref() {
        Some(value) => {
            let n = items.len();
            let mut i: usize = 0;
            while i < n
                invariant
                    needle is Some,
                    value@ == needle->0@,
                    n == items@.len(),
                    i <= n,
                    forall|k: int| 0 <= k < i ==> !contains_seq(#[trigger] items.deep_view()[k], value@),
                decreases n - i,
            {
                proof {
                    assert(items.deep_view()[i as int] == items@[i as int]@);
                }
                if str_contains(items[i].as_str(), value.as_str()) {
                    let chosen = items[i].clone();
                    proof {
                        assert(is_first_match(items.deep_view(), value@, i as int));
                        assert(some_match(items.deep_view(), value@));
                        assert(chosen@ == items.deep_view()[i as int]);
                        assert(chosen_first_match(chosen@, value@, items.deep_view()));
                    }
                    return Ok(chosen);
                }
                i += 1;
            }
            Err(AppError::NotFound { label: name.to_owned(), hint: value.clone() })
        },
        None => select_item(name, &items),
    }
}

} // verus!
