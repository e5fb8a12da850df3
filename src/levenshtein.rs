use std::collections::VecDeque;
use vstd::prelude::*;

use crate::edit::{applicable, apply_all, chars_of, Edit};

verus! {

/// The smallest of three naturals.
pub open spec fn min3(a: nat, b: nat, c: nat) -> nat {
    if a <= b && a <= c {
        a
    } else if b <= c {
        b
    } else {
        c
    }
}

/// Edit distance between the prefix of `s` of length `i` and the prefix of `t`
/// of length `j`, by the classical unit-cost recurrence.
pub open spec fn distance(s: Seq<char>, t: Seq<char>, i: nat, j: nat) -> nat
    decreases i + j,
{
    if i == 0 {
        j
    } else if j == 0 {
        i
    } else {
        let cost: nat = if s[i - 1] == t[j - 1] {
            0
        } else {
            1
        };
        min3(
            distance(s, t, (i - 1) as nat, (j - 1) as nat) + cost,
            distance(s, t, (i - 1) as nat, j) + 1,
            distance(s, t, i, (j - 1) as nat) + 1,
        )
    }
}

/// The Levenshtein distance between `s` and `t`.
pub open spec fn levenshtein(s: Seq<char>, t: Seq<char>) -> nat {
    distance(s, t, s.len(), t.len())
}

/// Insertion of the `j`-th character of `t` (counting from one) at `index`.
pub open spec fn insertion(t: Seq<char>, j: nat, index: nat) -> Edit {
    Edit::Insert { c: t[j - 1], index: index as usize }
}

/// Substitution of the `j`-th character of `t` (counting from one) at `index`.
pub open spec fn substitution(t: Seq<char>, j: nat, index: nat) -> Edit {
    Edit::Substitute { c: t[j - 1], index: index as usize }
}

/// The edits found by walking the distance table back from cell `(i, j)` to
/// `(0, 0)`, in application order, with indices into the unmodified `s`.
/// Where characters differ, the move to the cheapest neighbouring cell is taken,
/// ties going to substitution, then insertion, then deletion.
pub open spec fn backtrack(s: Seq<char>, t: Seq<char>, i: nat, j: nat) -> Seq<Edit>
    decreases i + j,
{
    if i == 0 && j == 0 {
        Seq::empty()
    } else if i == 0 {
        backtrack(s, t, 0, (j - 1) as nat).push(insertion(t, j, 0))
    } else if j == 0 {
        backtrack(s, t, (i - 1) as nat, 0).push(Edit::Delete { index: (i - 1) as usize })
    } else if s[i - 1] == t[j - 1] {
        backtrack(s, t, (i - 1) as nat, (j - 1) as nat)
    } else {
        let sub = distance(s, t, (i - 1) as nat, (j - 1) as nat);
        let ins = distance(s, t, i, (j - 1) as nat);
        let del = distance(s, t, (i - 1) as nat, j);
        if sub <= ins && sub <= del {
            backtrack(s, t, (i - 1) as nat, (j - 1) as nat).push(substitution(t, j, (i - 1) as nat))
        } else if ins <= del {
            backtrack(s, t, i, (j - 1) as nat).push(insertion(t, j, i))
        } else {
            backtrack(s, t, (i - 1) as nat, j).push(Edit::Delete { index: (i - 1) as usize })
        }
    }
}

/// Change in length caused by performing `e`.
pub open spec fn growth(e: Edit) -> int {
    match e {
        Edit::Insert { .. } => 1,
        Edit::Delete { .. } => -1,
        Edit::Substitute { .. } => 0,
    }
}

/// Net change in length caused by performing `edits`: insertions minus deletions.
pub open spec fn shift(edits: Seq<Edit>) -> int
    decreases edits.len(),
{
    if edits.len() == 0 {
        0
    } else {
        shift(edits.drop_last()) + growth(edits.last())
    }
}

/// Index of the `k`-th edit of `raw` once moved by the shift of the edits before it.
pub open spec fn shifted_index(raw: Seq<Edit>, k: int) -> int {
    raw[k].index_of() + shift(raw.take(k))
}

/// `raw` with each index moved by the length change of the edits before it, so
/// that the edits can be performed one after the other.
pub open spec fn corrected(raw: Seq<Edit>) -> Seq<Edit> {
    Seq::new(raw.len(), |k: int| raw[k].with_index(shifted_index(raw, k) as usize))
}

/// The edit sequence computed for turning `s` into `t`.
pub open spec fn edit_script(s: Seq<char>, t: Seq<char>) -> Seq<Edit> {
    corrected(backtrack(s, t, s.len(), t.len()))
}

/// The distance between two prefixes is at most the longer prefix's length.
proof fn lemma_distance_bound(s: Seq<char>, t: Seq<char>, i: nat, j: nat)
    ensures
        distance(s, t, i, j) <= if i <= j {
            j
        } else {
            i
        },
    decreases i + j,
{
    if i > 0 && j > 0 {
        lemma_distance_bound(s, t, (i - 1) as nat, (j - 1) as nat);
    }
}

/// One more target character saves at most one edit.
proof fn lemma_distance_longer_target(s: Seq<char>, t: Seq<char>, i: nat, j: nat)
    ensures
        distance(s, t, i, j) <= distance(s, t, i, j + 1) + 1,
    decreases i,
{
    if i > 0 {
        lemma_distance_longer_target(s, t, (i - 1) as nat, j);
    }
}

/// One more start character saves at most one edit.
proof fn lemma_distance_longer_start(s: Seq<char>, t: Seq<char>, i: nat, j: nat)
    ensures
        distance(s, t, i, j) <= distance(s, t, i + 1, j) + 1,
    decreases j,
{
    if j > 0 {
        lemma_distance_longer_start(s, t, i, (j - 1) as nat);
    }
}

/// A matching pair of last characters costs nothing.
proof fn lemma_distance_match(s: Seq<char>, t: Seq<char>, i: nat, j: nat)
    requires
        i > 0,
        j > 0,
        s[i - 1] == t[j - 1],
    ensures
        distance(s, t, i, j) == distance(s, t, (i - 1) as nat, (j - 1) as nat),
{
    lemma_distance_longer_target(s, t, (i - 1) as nat, (j - 1) as nat);
    lemma_distance_longer_start(s, t, (i - 1) as nat, (j - 1) as nat);
}

proof fn lemma_backtrack_len(s: Seq<char>, t: Seq<char>, i: nat, j: nat)
    requires
        i <= s.len() < usize::MAX,
        j <= t.len() < usize::MAX,
    ensures
        backtrack(s, t, i, j).len() == distance(s, t, i, j),
    decreases i + j,
{
    if i == 0 && j == 0 {
    } else if i == 0 {
        lemma_backtrack_len(s, t, 0, (j - 1) as nat);
    } else if j == 0 {
        lemma_backtrack_len(s, t, (i - 1) as nat, 0);
    } else {
        lemma_backtrack_len(s, t, (i - 1) as nat, (j - 1) as nat);
        lemma_backtrack_len(s, t, i, (j - 1) as nat);
        lemma_backtrack_len(s, t, (i - 1) as nat, j);
        if s[i - 1] == t[j - 1] {
            lemma_distance_match(s, t, i, j);
            assert(backtrack(s, t, i, j) == backtrack(s, t, (i - 1) as nat, (j - 1) as nat));
        } else {
            let sub = distance(s, t, (i - 1) as nat, (j - 1) as nat);
            let ins = distance(s, t, i, (j - 1) as nat);
            let del = distance(s, t, (i - 1) as nat, j);
            assert(distance(s, t, i, j) == min3(sub + 1, del + 1, ins + 1));
        }
    }
}

proof fn lemma_backtrack_same(s: Seq<char>, i: nat)
    requires
        i <= s.len() < usize::MAX,
    ensures
        backtrack(s, s, i, i).len() == 0,
    decreases i,
{
    if i > 0 {
        lemma_backtrack_same(s, (i - 1) as nat);
    }
}

proof fn lemma_shift_push(raw: Seq<Edit>, e: Edit)
    ensures
        shift(raw.push(e)) == shift(raw) + growth(e),
{
    assert(raw.push(e).drop_last() =~= raw);
}

proof fn lemma_backtrack_shift(s: Seq<char>, t: Seq<char>, i: nat, j: nat)
    requires
        i <= s.len() < usize::MAX,
        j <= t.len() < usize::MAX,
    ensures
        shift(backtrack(s, t, i, j)) == j - i,
    decreases i + j,
{
    if i == 0 && j == 0 {
    } else if i == 0 {
        let prev = backtrack(s, t, 0, (j - 1) as nat);
        lemma_backtrack_shift(s, t, 0, (j - 1) as nat);
        lemma_shift_push(prev, insertion(t, j, 0));
    } else if j == 0 {
        let prev = backtrack(s, t, (i - 1) as nat, 0);
        lemma_backtrack_shift(s, t, (i - 1) as nat, 0);
        lemma_shift_push(prev, Edit::Delete { index: (i - 1) as usize });
    } else if s[i - 1] == t[j - 1] {
        lemma_backtrack_shift(s, t, (i - 1) as nat, (j - 1) as nat);
    } else {
        let sub = distance(s, t, (i - 1) as nat, (j - 1) as nat);
        let ins = distance(s, t, i, (j - 1) as nat);
        let del = distance(s, t, (i - 1) as nat, j);
        if sub <= ins && sub <= del {
            lemma_backtrack_shift(s, t, (i - 1) as nat, (j - 1) as nat);
            lemma_shift_push(
                backtrack(s, t, (i - 1) as nat, (j - 1) as nat),
                substitution(t, j, (i - 1) as nat),
            );
        } else if ins <= del {
            lemma_backtrack_shift(s, t, i, (j - 1) as nat);
            lemma_shift_push(
                backtrack(s, t, i, (j - 1) as nat),
                insertion(t, j, i),
            );
        } else {
            lemma_backtrack_shift(s, t, (i - 1) as nat, j);
            lemma_shift_push(
                backtrack(s, t, (i - 1) as nat, j),
                Edit::Delete { index: (i - 1) as usize },
            );
        }
    }
}

proof fn lemma_corrected_push(raw: Seq<Edit>, e: Edit)
    ensures
        forall|k: int| 0 <= k < raw.len() ==> #[trigger] shifted_index(raw.push(e), k) == shifted_index(raw, k),
        shifted_index(raw.push(e), raw.len() as int) == e.index_of() + shift(raw),
        corrected(raw.push(e)) == corrected(raw).push(
            e.with_index((e.index_of() + shift(raw)) as usize),
        ),
{
    let r = raw.push(e);
    assert forall|k: int| 0 <= k < raw.len() implies #[trigger] shifted_index(r, k) == shifted_index(raw, k) by {
        assert(r.take(k) =~= raw.take(k));
    }
    assert(r.take(raw.len() as int) =~= raw);
    assert(corrected(r) =~= corrected(raw).push(e.with_index((e.index_of() + shift(raw)) as usize)));
}

/// What corrected edits do when they reach cell `(i, j)` of the table.
spec fn reaches(s: Seq<char>, t: Seq<char>, raw: Seq<Edit>, i: nat, j: nat) -> bool {
    &&& forall|k: int| 0 <= k < raw.len() ==> 0 <= #[trigger] shifted_index(raw, k) <= j
    &&& applicable(corrected(raw), s)
    &&& apply_all(corrected(raw), s) == t.take(j as int) + s.skip(i as int)
}

/// One backtracking step: the edit `e` takes cell `(i2, j2)` to cell `(i, j)`.
spec fn step(t: Seq<char>, e: Edit, i: nat, j: nat, i2: nat, j2: nat) -> bool {
    match e {
        Edit::Insert { c, index } => i2 == i && j2 + 1 == j && c == t[j - 1] && index == i,
        Edit::Delete { index } => i2 + 1 == i && j2 == j && index + 1 == i,
        Edit::Substitute { c, index } => i2 + 1 == i && j2 + 1 == j && c == t[j - 1] && index + 1
            == i,
    }
}

proof fn lemma_effect_step(
    s: Seq<char>,
    t: Seq<char>,
    prev: Seq<Edit>,
    e: Edit,
    i: nat,
    j: nat,
    i2: nat,
    j2: nat,
)
    requires
        i <= s.len() < usize::MAX,
        j <= t.len() < usize::MAX,
        reaches(s, t, prev, i2, j2),
        shift(prev) == j2 - i2,
        step(t, e, i, j, i2, j2),
    ensures
        reaches(s, t, prev.push(e), i, j),
{
    let r = prev.push(e);
    lemma_corrected_push(prev, e);
    let moved = e.with_index((e.index_of() + shift(prev)) as usize);
    let before = apply_all(corrected(prev), s);
    assert(corrected(r).drop_last() =~= corrected(prev));
    assert(corrected(r).last() == moved);
    assert forall|k: int| 0 <= k < r.len() implies 0 <= #[trigger] shifted_index(r, k) <= j by {
        if k < prev.len() {
            assert(shifted_index(r, k) == shifted_index(prev, k));
        }
    }
    match e {
        Edit::Insert { c, index } => {
            assert(before.insert(j - 1, c) =~= t.take(j as int) + s.skip(i as int));
        },
        Edit::Delete { index } => {
            assert(before.remove(j as int) =~= t.take(j as int) + s.skip(i as int));
        },
        Edit::Substitute { c, index } => {
            assert(before.update(j - 1, c) =~= t.take(j as int) + s.skip(i as int));
        },
    }
}

/// Walking the table back to cell `(i, j)` and performing the corrected edits on
/// `s` yields the first `j` characters of `t` followed by what follows position
/// `i` in `s`; every corrected index lies between 0 and `j`.
proof fn lemma_backtrack_effect(s: Seq<char>, t: Seq<char>, i: nat, j: nat)
    requires
        i <= s.len() < usize::MAX,
        j <= t.len() < usize::MAX,
    ensures
        reaches(s, t, backtrack(s, t, i, j), i, j),
    decreases i + j,
{
    let r = backtrack(s, t, i, j);
    if i == 0 && j == 0 {
        assert(t.take(0) + s.skip(0) =~= s);
        assert(corrected(r).len() == 0);
    } else if i > 0 && j > 0 && s[i - 1] == t[j - 1] {
        lemma_backtrack_effect(s, t, (i - 1) as nat, (j - 1) as nat);
        assert(t.take(j - 1) + s.skip(i - 1) =~= t.take(j as int) + s.skip(i as int));
    } else {
        let sub = distance(s, t, (i - 1) as nat, (j - 1) as nat);
        let ins = distance(s, t, i, (j - 1) as nat);
        let del = distance(s, t, (i - 1) as nat, j);
        if i == 0 || (j > 0 && !(sub <= ins && sub <= del) && ins <= del) {
            let prev = backtrack(s, t, i, (j - 1) as nat);
            lemma_backtrack_effect(s, t, i, (j - 1) as nat);
            lemma_backtrack_shift(s, t, i, (j - 1) as nat);
            lemma_effect_step(s, t, prev, insertion(t, j, i), i, j, i, (j - 1) as nat);
        } else if j == 0 || !(sub <= ins && sub <= del) {
            let prev = backtrack(s, t, (i - 1) as nat, j);
            lemma_backtrack_effect(s, t, (i - 1) as nat, j);
            lemma_backtrack_shift(s, t, (i - 1) as nat, j);
            lemma_effect_step(
                s,
                t,
                prev,
                Edit::Delete { index: (i - 1) as usize },
                i,
                j,
                (i - 1) as nat,
                j,
            );
        } else {
            let prev = backtrack(s, t, (i - 1) as nat, (j - 1) as nat);
            lemma_backtrack_effect(s, t, (i - 1) as nat, (j - 1) as nat);
            lemma_backtrack_shift(s, t, (i - 1) as nat, (j - 1) as nat);
            lemma_effect_step(
                s,
                t,
                prev,
                substitution(t, j, (i - 1) as nat),
                i,
                j,
                (i - 1) as nat,
                (j - 1) as nat,
            );
        }
    }
}

/// Performed front to back on `s`, the edit script for `s` and `t` stays in range
/// at every step and ends in exactly `t`.
pub proof fn lemma_script_round_trip(s: Seq<char>, t: Seq<char>)
    requires
        s.len() < usize::MAX,
        t.len() < usize::MAX,
    ensures
        applicable(edit_script(s, t), s),
        apply_all(edit_script(s, t), s) == t,
{
    lemma_backtrack_effect(s, t, s.len(), t.len());
    assert(t.take(t.len() as int) + s.skip(s.len() as int) =~= t);
}

/// The edit script for `s` and `t` has exactly as many edits as the Levenshtein
/// distance between them.
pub proof fn lemma_script_minimal(s: Seq<char>, t: Seq<char>)
    requires
        s.len() < usize::MAX,
        t.len() < usize::MAX,
    ensures
        edit_script(s, t).len() == levenshtein(s, t),
{
    lemma_backtrack_len(s, t, s.len(), t.len());
}

/// A string needs no edits to become itself.
pub proof fn lemma_script_identity(s: Seq<char>)
    requires
        s.len() < usize::MAX,
    ensures
        edit_script(s, s).len() == 0,
{
    lemma_backtrack_same(s, s.len());
}

/// Computes the edits that, performed front to back on `start`, turn it into
/// `target`: as few as the Levenshtein distance between the two, with ties broken
/// towards substitution, then insertion, then deletion.
pub fn compute_edit_sequence(start: &str, target: &str) -> (r: VecDeque<Edit>)
    requires
        start@.len() < usize::MAX,
        target@.len() < usize::MAX,
    ensures
        r@ == edit_script(start@, target@),
        applicable(r@, start@),
        apply_all(r@, start@) == target@,
        r@.len() == levenshtein(start@, target@),
        start@ == target@ ==> r@.len() == 0,
{
    let ghost s = start@;
    let ghost t = target@;
    let start_chars = chars_of(start);
    let target_chars = chars_of(target);
    let start_len = start_chars.len();
    let target_len = target_chars.len();

    // dp[i][j] is the least number of edits turning the first i characters of
    // start into the first j characters of target.
    let mut dp: Vec<Vec<usize>> = Vec::new();
    let mut i: usize = 0;
    while i <= start_len
        invariant
            start_chars@ == s,
            target_chars@ == t,
            start_len == s.len() < usize::MAX,
            target_len == t.len() < usize::MAX,
            i <= start_len + 1,
            dp@.len() == i,
            forall|x: int| 0 <= x < i ==> #[trigger] dp@[x]@.len() == target_len + 1,
            forall|x: int, y: int|
                0 <= x < i && 0 <= y <= target_len ==> #[trigger] dp@[x]@[y] == distance(
                    s,
                    t,
                    x as nat,
                    y as nat,
                ),
        decreases start_len + 1 - i,
    {
        let mut row: Vec<usize> = Vec::new();
        let mut j: usize = 0;
        while j <= target_len
            invariant
                start_chars@ == s,
                target_chars@ == t,
                start_len == s.len() < usize::MAX,
                target_len == t.len() < usize::MAX,
                i <= start_len,
                j <= target_len + 1,
                dp@.len() == i,
                forall|x: int| 0 <= x < i ==> #[trigger] dp@[x]@.len() == target_len + 1,
                forall|x: int, y: int|
                    0 <= x < i && 0 <= y <= target_len ==> #[trigger] dp@[x]@[y] == distance(
                        s,
                        t,
                        x as nat,
                        y as nat,
                    ),
                row@.len() == j,
                forall|y: int| 0 <= y < j ==> #[trigger] row@[y] == distance(s, t, i as nat, y as nat),
            decreases target_len + 1 - j,
        {
            let value = if i == 0 {
                // Reaching a prefix of target from nothing takes j insertions.
                j
            } else if j == 0 {
                // Reaching nothing from a prefix of start takes i deletions.
                i
            } else {
                proof {
                    lemma_distance_bound(s, t, (i - 1) as nat, (j - 1) as nat);
                    lemma_distance_bound(s, t, (i - 1) as nat, j as nat);
                    lemma_distance_bound(s, t, i as nat, (j - 1) as nat);
                }
                let substitution_distance = if start_chars[i - 1] == target_chars[j - 1] {
                    dp[i - 1][j - 1]
                } else {
                    dp[i - 1][j - 1] + 1
                };
                let deletion_distance = dp[i - 1][j] + 1;
                let insertion_distance = row[j - 1] + 1;
                if substitution_distance <= deletion_distance && substitution_distance
                    <= insertion_distance {
                    substitution_distance
                } else if deletion_distance <= insertion_distance {
                    deletion_distance
                } else {
                    insertion_distance
                }
            };
            row.push(value);
            j = j + 1;
        }
        dp.push(row);
        i = i + 1;
    }

    // Walk the table back from the bottom right corner, collecting edits whose
    // indices refer to the unmodified start.
    let mut i: usize = start_len;
    let mut j: usize = target_len;
    let mut edits: VecDeque<Edit> = VecDeque::new();
    while i > 0 || j > 0
        invariant
            start_chars@ == s,
            target_chars@ == t,
            start_len == s.len() < usize::MAX,
            target_len == t.len() < usize::MAX,
            i <= start_len,
            j <= target_len,
            dp@.len() == start_len + 1,
            forall|x: int| 0 <= x <= start_len ==> #[trigger] dp@[x]@.len() == target_len + 1,
            forall|x: int, y: int|
                0 <= x <= start_len && 0 <= y <= target_len ==> #[trigger] dp@[x]@[y]
                    == distance(s, t, x as nat, y as nat),
            backtrack(s, t, i as nat, j as nat) + edits@ == backtrack(
                s,
                t,
                start_len as nat,
                target_len as nat,
            ),
        decreases i + j,
    {
        let ghost old_edits = edits@;
        let edit = if i == 0 {
            // Only insertions lead away from an exhausted start.
            Edit::Insert { c: target_chars[j - 1], index: 0 }
        } else if j == 0 {
            // Only deletions lead to an exhausted target.
            Edit::Delete { index: i - 1 }
        } else if start_chars[i - 1] == target_chars[j - 1] {
            // Equal characters cost nothing: move on in both strings.
            i = i - 1;
            j = j - 1;
            continue ;
        } else {
            // Move to the cheapest neighbouring cell; ties go to substitution,
            // then insertion, then deletion.
            let substitution_distance = dp[i - 1][j - 1];
            let insertion_distance = dp[i][j - 1];
            let deletion_distance = dp[i - 1][j];
            if substitution_distance <= insertion_distance && substitution_distance
                <= deletion_distance {
                Edit::Substitute { c: target_chars[j - 1], index: i - 1 }
            } else if insertion_distance <= deletion_distance {
                Edit::Insert { c: target_chars[j - 1], index: i }
            } else {
                Edit::Delete { index: i - 1 }
            }
        };
        let ghost before = backtrack(s, t, i as nat, j as nat);
        match edit {
            Edit::Insert { .. } => {
                j = j - 1;
            },
            Edit::Delete { .. } => {
                i = i - 1;
            },
            Edit::Substitute { .. } => {
                i = i - 1;
                j = j - 1;
            },
        }
        assert(before == backtrack(s, t, i as nat, j as nat).push(edit));
        edits.push_front(edit);
        assert(backtrack(s, t, i as nat, j as nat) + edits@ =~= before + old_edits);
    }
    assert(edits@ =~= backtrack(s, t, start_len as nat, target_len as nat));
    let ghost raw = edits@;
    proof {
        lemma_backtrack_effect(s, t, start_len as nat, target_len as nat);
    }

    // Each index above ignores how the edits before it changed the length of the
    // string. Move it by the running shift, kept as insertions so far (`grown`)
    // minus deletions so far (`shrunk`).
    let mut fixed: VecDeque<Edit> = VecDeque::new();
    let mut grown: usize = 0;
    let mut shrunk: usize = 0;
    let mut k: usize = 0;
    while k < edits.len()
        invariant
            edits@ == raw,
            raw == backtrack(s, t, s.len(), t.len()),
            reaches(s, t, raw, s.len(), t.len()),
            target_len == t.len() < usize::MAX,
            k <= raw.len(),
            grown + shrunk <= k,
            grown - shrunk == shift(raw.take(k as int)),
            fixed@ == corrected(raw).take(k as int),
        decreases raw.len() - k,
    {
        let edit = edits[k];
        proof {
            assert(raw.take(k + 1).drop_last() =~= raw.take(k as int));
            assert(raw.take(k + 1).last() == raw[k as int]);
            assert(0 <= shifted_index(raw, k as int) <= target_len);
        }
        let fixed_edit = match edit {
            Edit::Insert { c, index } => {
                let moved = if index >= shrunk {
                    (index - shrunk) + grown
                } else {
                    grown - (shrunk - index)
                };
                grown = grown + 1;
                Edit::Insert { c, index: moved }
            },
            Edit::Delete { index } => {
                let moved = if index >= shrunk {
                    (index - shrunk) + grown
                } else {
                    grown - (shrunk - index)
                };
                shrunk = shrunk + 1;
                Edit::Delete { index: moved }
            },
            Edit::Substitute { c, index } => {
                let moved = if index >= shrunk {
                    (index - shrunk) + grown
                } else {
                    grown - (shrunk - index)
                };
                Edit::Substitute { c, index: moved }
            },
        };
        fixed.push_back(fixed_edit);
        k = k + 1;
        assert(fixed@ =~= corrected(raw).take(k as int));
    }
    assert(fixed@ =~= corrected(raw));
    proof {
        lemma_script_round_trip(s, t);
        lemma_script_minimal(s, t);
        if s == t {
            lemma_script_identity(s);
        }
    }
    fixed
}

} // verus!
