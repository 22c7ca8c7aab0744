//! The answers of the service.

use crate::index::AppState;
use crate::knn::{fraud_count, found_first, is_visit_order, knn_search, visit_in_turn};
use crate::search::is_nearest;
use vstd::prelude::*;

verus! {

/// A decimal digit.
pub open spec fn digit(d: int) -> char {
    (48 + d) as char
}

/// The answer for a score in tenths: the transaction is approved if the score is
/// below 0.6.
pub open spec fn answer(tenths: int) -> Seq<char> {
    "{\"approved\":"@ + (if tenths < 6 {
        "true"@
    } else {
        "false"@
    }) + ",\"fraud_score\":"@ + seq![digit(tenths / 10), '.', digit(tenths % 10)] + "}"@
}

/// The answer for so many frauds among the five nearest references; the score is
/// their share.
pub fn response(frauds: usize) -> (r: &'static str)
    requires
        frauds <= 5,
    ensures
        r@ == answer(frauds * 10 / 5),
{
    proof {
        reveal_strlit("{\"approved\":");
        reveal_strlit("true");
        reveal_strlit("false");
        reveal_strlit(",\"fraud_score\":");
        reveal_strlit("}");
        reveal_strlit("{\"approved\":true,\"fraud_score\":0.0}");
        reveal_strlit("{\"approved\":true,\"fraud_score\":0.2}");
        reveal_strlit("{\"approved\":true,\"fraud_score\":0.4}");
        reveal_strlit("{\"approved\":false,\"fraud_score\":0.6}");
        reveal_strlit("{\"approved\":false,\"fraud_score\":0.8}");
        reveal_strlit("{\"approved\":false,\"fraud_score\":1.0}");
    }
    let r: &'static str = if frauds == 0 {
        "{\"approved\":true,\"fraud_score\":0.0}"
    } else if frauds == 1 {
        "{\"approved\":true,\"fraud_score\":0.2}"
    } else if frauds == 2 {
        "{\"approved\":true,\"fraud_score\":0.4}"
    } else if frauds == 3 {
        "{\"approved\":false,\"fraud_score\":0.6}"
    } else if frauds == 4 {
        "{\"approved\":false,\"fraud_score\":0.8}"
    } else {
        "{\"approved\":false,\"fraud_score\":1.0}"
    };
    assert(r@ =~= answer(frauds * 10 / 5));
    r
}

/// Answers a request: with the share of frauds among the nearest references
/// where there is a query and an index to search, else with a score of zero.
pub fn fraud_score(state: &AppState, query: Option<([i16; 16], u8)>) -> (r: &'static str)
    requires
        state.wf(),
        state.searchable(),
    ensures
        query is None || state.nodes@.len() == 0 ==> r@ == answer(0),
        query matches Some((q, key)) ==> state.nodes@.len() > 0 ==> exists|order: Seq<int>|
            #[trigger]
            is_visit_order(state.partitions@, q@, state.primary(key), order) && r@ == answer(
                fraud_count(visit_in_turn(*state, q@, order, found_first(*state, q@, key))) as int
                    * 10 / 5,
            ),
        query matches Some((q, key)) ==> state.nodes@.len() > 0 && state.sound()
            ==> exists|best: Seq<(i32, u8)>| #[trigger]
            is_nearest(best, q@, state.points()) && r@ == answer(
                fraud_count(best) as int * 10 / 5,
            ),
{
    match query {
        Some((q, key)) => {
            if state.nodes.len() == 0 {
                response(0)
            } else {
                response(knn_search(state, &q, key))
            }
        },
        None => response(0),
    }
}

/// The six answers, by their characters: approved below three frauds of five,
/// and the score in one decimal, which is two tenths for each fraud.
pub proof fn law_answers(frauds: int)
    requires
        0 <= frauds <= 5,
    ensures
        ({
            let text = answer(frauds * 10 / 5);
            let start = seq!['{', '"', 'a', 'p', 'p', 'r', 'o', 'v', 'e', 'd', '"', ':'];
            let yes = seq!['t', 'r', 'u', 'e'];
            let no = seq!['f', 'a', 'l', 's', 'e'];
            let middle = seq![
                ',', '"', 'f', 'r', 'a', 'u', 'd', '_', 's', 'c', 'o', 'r', 'e', '"', ':',
            ];
            let verdict = if frauds < 3 {
                yes
            } else {
                no
            };
            let n = text.len();
            &&& text.take(n - 4) == start + verdict + middle
            &&& n == 31 + verdict.len()
            &&& 10 * (text[n - 4] as int - 48) + (text[n - 2] as int - 48) == 2 * frauds
            &&& '0' <= text[n - 2] <= '9'
            &&& text[n - 3] == '.'
            &&& text[n - 1] == '}'
        }),
{
    reveal_strlit("{\"approved\":");
    reveal_strlit("true");
    reveal_strlit("false");
    reveal_strlit(",\"fraud_score\":");
    reveal_strlit("}");
    let text = answer(frauds * 10 / 5);
    let start = seq!['{', '"', 'a', 'p', 'p', 'r', 'o', 'v', 'e', 'd', '"', ':'];
    let middle = seq![
        ',', '"', 'f', 'r', 'a', 'u', 'd', '_', 's', 'c', 'o', 'r', 'e', '"', ':',
    ];
    assert("{\"approved\":"@ =~= start);
    assert("true"@ =~= seq!['t', 'r', 'u', 'e']);
    assert("false"@ =~= seq!['f', 'a', 'l', 's', 'e']);
    assert(",\"fraud_score\":"@ =~= middle);
    let verdict = if frauds < 3 {
        "true"@
    } else {
        "false"@
    };
    assert(text.take(text.len() - 4) =~= start + verdict + middle);
}

}
