//! What to do with one file, given the dictionaries in their configured order.
use vstd::prelude::*;
use crate::finder::{TranslateFinder, substitution};
use crate::placeholder::has_placeholder;

verus! {

/// What one dictionary makes of a file's text.
pub enum FileOutcome {
    /// The file is to be written with this text.
    Rewrite(String),
    /// The file holds placeholders, but none of them named a string.
    NoTranslations,
}

impl FileOutcome {
    pub open spec fn view(&self) -> Option<Seq<char>> {
        match self {
            FileOutcome::Rewrite(s) => Some(s@),
            FileOutcome::NoTranslations => None,
        }
    }
}

/// The outcome of each dictionary, in order, on one file's original text.
/// Each dictionary works on that same text, not on what an earlier one made
/// of it. A dictionary that finds no placeholder ends the list, and since
/// all dictionaries share one placeholder grammar, a text without
/// placeholders gets no outcome at all.
pub fn plan_file(translations: &Vec<TranslateFinder>, content: &str) -> (r: Vec<FileOutcome>)
    ensures
        has_placeholder(content@) ==> r@.len() == translations@.len(),
        !has_placeholder(content@) ==> r@.len() == 0,
        forall|i: int|
            0 <= i < r@.len() ==> r@[i].view() == substitution(
                #[trigger] translations@[i].dictionary(),
                content@,
            ),
{
    let mut r: Vec<FileOutcome> = Vec::new();
    let mut i: usize = 0;
    while i < translations.len()
        invariant
            i <= translations@.len(),
            r@.len() == i,
            i > 0 ==> has_placeholder(content@),
            forall|j: int|
                0 <= j < r@.len() ==> r@[j].view() == substitution(
                    #[trigger] translations@[j].dictionary(),
                    content@,
                ),
        ensures
            has_placeholder(content@) ==> i == translations@.len(),
            !has_placeholder(content@) ==> i == 0,
            r@.len() == i,
            forall|j: int|
                0 <= j < r@.len() ==> r@[j].view() == substitution(
                    #[trigger] translations@[j].dictionary(),
                    content@,
                ),
        decreases translations@.len() - i,
    {
        let finder = &translations[i];
        if !finder.is_match(content) {
            break;
        }
        match finder.replace_with_string(content) {
            Some(text) => r.push(FileOutcome::Rewrite(text)),
            None => r.push(FileOutcome::NoTranslations),
        }
        i = i + 1;
    }
    r
}

} // verus!
