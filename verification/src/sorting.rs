//! Stable insertion of lines into a case-insensitively sorted list.

use crate::text::{
    lemma_lex_less_irreflexive, lemma_lex_less_total, lemma_lex_less_transitive, line_less,
    sort_key, sorts_before,
};
use vstd::prelude::*;

verus! {

/// The texts of a list of strings.
pub open spec fn texts(list: Seq<String>) -> Seq<Seq<char>> {
    Seq::new(list.len(), |i: int| list[i]@)
}

/// The index of the first entry of `list` that sorts strictly after `line`,
/// or the length of `list` if there is none.
pub open spec fn insert_position(list: Seq<Seq<char>>, line: Seq<char>) -> int
    decreases list.len(),
{
    if list.len() == 0 {
        0
    } else if line_less(line, list[0]) {
        0
    } else {
        1 + insert_position(list.drop_first(), line)
    }
}

/// `list` with `line` put in before the first entry that sorts strictly
/// after it, and at the end if there is none.
pub open spec fn inserted(list: Seq<Seq<char>>, line: Seq<char>) -> Seq<Seq<char>> {
    list.insert(insert_position(list, line), line)
}

/// The lines of `lines`, inserted one after the other into an empty list.
pub open spec fn stable_sorted(lines: Seq<Seq<char>>) -> Seq<Seq<char>>
    decreases lines.len(),
{
    if lines.len() == 0 {
        Seq::empty()
    } else {
        inserted(stable_sorted(lines.drop_last()), lines.last())
    }
}

/// No line of `lines` sorts strictly before a line that precedes it.
pub open spec fn is_sorted(lines: Seq<Seq<char>>) -> bool {
    forall|i: int, j: int| 0 <= i < j < lines.len() ==> !line_less(lines[j], lines[i])
}

/// `order` lists each index below `n` exactly once.
pub open spec fn is_reordering(order: Seq<int>, n: nat) -> bool {
    &&& order.len() == n
    &&& forall|i: int| 0 <= i < n ==> 0 <= #[trigger] order[i] < n
    &&& forall|i: int, j: int| 0 <= i < j < n ==> order[i] != order[j]
}

/// `output` holds the lines of `input` in the order `order`, which is sorted
/// and keeps lines that sort alike in the order they had in `input`.
pub open spec fn is_stable_sort(
    output: Seq<Seq<char>>,
    input: Seq<Seq<char>>,
    order: Seq<int>,
) -> bool {
    &&& is_reordering(order, input.len())
    &&& output.len() == input.len()
    &&& forall|i: int| 0 <= i < output.len() ==> #[trigger] output[i] == input[order[i]]
    &&& is_sorted(output)
    &&& forall|i: int, j: int|
        0 <= i < j < output.len() && !line_less(output[i], output[j]) ==> order[i] < order[j]
}

/// `insert_position` is the one index at which every earlier entry does not
/// sort after `line` and the entry itself, if there is one, does.
pub proof fn lemma_insert_position(list: Seq<Seq<char>>, line: Seq<char>)
    ensures
        0 <= insert_position(list, line) <= list.len(),
        forall|k: int| 0 <= k < insert_position(list, line) ==> !line_less(line, list[k]),
        insert_position(list, line) < list.len() ==> line_less(
            line,
            list[insert_position(list, line)],
        ),
    decreases list.len(),
{
    if list.len() > 0 && !line_less(line, list[0]) {
        let rest = list.drop_first();
        lemma_insert_position(rest, line);
        assert forall|k: int| 0 <= k < insert_position(list, line) implies !line_less(
            line,
            list[k],
        ) by {
            if k > 0 {
                assert(list[k] == rest[k - 1]);
            }
        }
    }
}

/// An index with the two properties of `insert_position` is that position.
pub proof fn lemma_insert_position_unique(list: Seq<Seq<char>>, line: Seq<char>, p: int)
    requires
        0 <= p <= list.len(),
        forall|k: int| 0 <= k < p ==> !line_less(line, list[k]),
        p < list.len() ==> line_less(line, list[p]),
    ensures
        insert_position(list, line) == p,
    decreases list.len(),
{
    if list.len() > 0 && p > 0 {
        let rest = list.drop_first();
        assert(!line_less(line, list[0]));
        assert forall|k: int| 0 <= k < p - 1 implies !line_less(line, rest[k]) by {
            assert(rest[k] == list[k + 1]);
        }
        lemma_insert_position_unique(rest, line, p - 1);
    }
}

/// Inserting a line into a sorted list leaves it sorted.
pub proof fn lemma_inserted_sorted(list: Seq<Seq<char>>, line: Seq<char>)
    requires
        is_sorted(list),
    ensures
        is_sorted(inserted(list, line)),
{
    let p = insert_position(list, line);
    let out = inserted(list, line);
    lemma_insert_position(list, line);
    assert forall|i: int, j: int| 0 <= i < j < out.len() implies !line_less(out[j], out[i]) by {
        if j == p {
            assert(out[i] == list[i]);
            assert(!line_less(line, list[i]));
        } else if i == p {
            assert(out[j] == list[j - 1]);
            if line_less(list[j - 1], line) {
                lemma_lex_less_transitive(
                    sort_key(list[j - 1]),
                    sort_key(line),
                    sort_key(list[p]),
                );
                lemma_lex_less_irreflexive(sort_key(list[p]));
                if j - 1 > p {
                    assert(!line_less(list[j - 1], list[p]));
                }
            }
        } else {
            let i0 = if i < p { i } else { i - 1 };
            let j0 = if j < p { j } else { j - 1 };
            assert(out[i] == list[i0]);
            assert(out[j] == list[j0]);
            assert(!line_less(list[j0], list[i0]));
        }
    }
}

/// The result of `stable_sorted` is sorted.
pub proof fn lemma_stable_sorted_is_sorted(lines: Seq<Seq<char>>)
    ensures
        is_sorted(stable_sorted(lines)),
        stable_sorted(lines).len() == lines.len(),
    decreases lines.len(),
{
    if lines.len() > 0 {
        lemma_stable_sorted_is_sorted(lines.drop_last());
        lemma_inserted_sorted(stable_sorted(lines.drop_last()), lines.last());
        lemma_insert_position(stable_sorted(lines.drop_last()), lines.last());
    }
}

/// Sort correctness: the result of `stable_sorted` holds the lines of its
/// input in an order in which no line sorts before an earlier one, and lines
/// that sort alike stay in the order they came in. The order is returned.
pub proof fn lemma_stable_sorted_sorts(lines: Seq<Seq<char>>) -> (order: Seq<int>)
    ensures
        is_stable_sort(stable_sorted(lines), lines, order),
    decreases lines.len(),
{
    if lines.len() == 0 {
        Seq::empty()
    } else {
        let before = lines.drop_last();
        let line = lines.last();
        let n = before.len() as int;
        let prev = lemma_stable_sorted_sorts(before);
        let list = stable_sorted(before);
        let p = insert_position(list, line);
        let out = stable_sorted(lines);
        let order = prev.insert(p, n);
        lemma_insert_position(list, line);
        lemma_inserted_sorted(list, line);
        assert forall|i: int| 0 <= i < out.len() implies #[trigger] out[i] == lines[order[i]] by {
            if i < p {
                assert(out[i] == list[i]);
                assert(order[i] == prev[i]);
                assert(list[i] == before[prev[i]]);
            } else if i > p {
                assert(out[i] == list[i - 1]);
                assert(order[i] == prev[i - 1]);
                assert(list[i - 1] == before[prev[i - 1]]);
            }
        }
        assert forall|i: int| 0 <= i < lines.len() implies 0 <= #[trigger] order[i]
            < lines.len() by {
            if i < p {
                assert(order[i] == prev[i]);
            } else if i > p {
                assert(order[i] == prev[i - 1]);
            }
        }
        assert forall|i: int, j: int| 0 <= i < j < lines.len() implies order[i] != order[j] by {
            let i0 = if i < p { i } else { i - 1 };
            let j0 = if j < p { j } else { j - 1 };
            if i != p {
                assert(order[i] == prev[i0]);
                assert(0 <= prev[i0] < n);
            }
            if j != p {
                assert(order[j] == prev[j0]);
                assert(0 <= prev[j0] < n);
            }
        }
        assert forall|i: int, j: int|
            0 <= i < j < out.len() && !line_less(out[i], out[j]) implies order[i] < order[j] by {
            let i0 = if i < p { i } else { i - 1 };
            let j0 = if j < p { j } else { j - 1 };
            if i == p {
                // the new line sorts strictly before everything behind it
                assert(out[j] == list[j - 1]);
                assert(!line_less(list[j - 1], list[p]));
                if sort_key(line) == sort_key(list[j - 1]) {
                } else {
                    if !line_less(list[j - 1], line) {
                        lemma_lex_less_total(sort_key(line), sort_key(list[j - 1]));
                    }
                    lemma_lex_less_transitive(
                        sort_key(list[j - 1]),
                        sort_key(line),
                        sort_key(list[p]),
                    );
                }
                assert(false);
            } else if j == p {
                assert(order[i] == prev[i0]);
                assert(0 <= prev[i0] < n);
            } else {
                assert(out[i] == list[i0]);
                assert(out[j] == list[j0]);
                assert(order[i] == prev[i0]);
                assert(order[j] == prev[j0]);
            }
        }
        order
    }
}

/// Sorting leaves a sorted list as it is.
pub proof fn lemma_stable_sorted_of_sorted(lines: Seq<Seq<char>>)
    requires
        is_sorted(lines),
    ensures
        stable_sorted(lines) == lines,
    decreases lines.len(),
{
    if lines.len() > 0 {
        let before = lines.drop_last();
        let line = lines.last();
        assert forall|i: int, j: int| 0 <= i < j < before.len() implies !line_less(
            before[j],
            before[i],
        ) by {
            assert(before[i] == lines[i]);
            assert(before[j] == lines[j]);
        }
        lemma_stable_sorted_of_sorted(before);
        assert forall|k: int| 0 <= k < before.len() implies !line_less(line, before[k]) by {
            assert(before[k] == lines[k]);
        }
        lemma_insert_position_unique(before, line, before.len() as int);
        assert(before.insert(before.len() as int, line) =~= lines);
    }
}

/// Sorting twice gives what sorting once gives.
pub proof fn lemma_stable_sorted_idempotent(lines: Seq<Seq<char>>)
    ensures
        stable_sorted(stable_sorted(lines)) == stable_sorted(lines),
{
    lemma_stable_sorted_is_sorted(lines);
    lemma_stable_sorted_of_sorted(stable_sorted(lines));
}

/// Puts `insert_string` into `list` before the first entry whose lower-case
/// form comes strictly after its own, and at the end if there is none.
pub fn insertion_sort(list: &mut Vec<String>, insert_string: String)
    ensures
        texts(final(list)@) == inserted(texts(old(list)@), insert_string@),
{
    let ghost before = texts(list@);
    let mut i: usize = 0;
    while i < list.len()
        invariant
            i <= list.len(),
            texts(list@) == before,
            list@ == old(list)@,
            forall|k: int| 0 <= k < i ==> !line_less(insert_string@, before[k]),
        decreases list.len() - i,
    {
        if sorts_before(insert_string.as_str(), list[i].as_str()) {
            proof {
                assert(before[i as int] == list@[i as int]@);
                lemma_insert_position_unique(before, insert_string@, i as int);
            }
            list.insert(i, insert_string);
            assert(texts(list@) =~= before.insert(i as int, insert_string@));
            return ;
        }
        assert(before[i as int] == list@[i as int]@);
        i += 1;
    }
    proof {
        lemma_insert_position_unique(before, insert_string@, i as int);
    }
    list.push(insert_string);
    assert(texts(list@) =~= before.insert(i as int, insert_string@));
}

} // verus!
