//! The canonical order of questions: ascending by the number that the digits
//! of a question's identifier spell, questions with the same number staying
//! in the order in which they were given.

use vstd::prelude::*;
use crate::types::{Question, QuestionView, questions_view};

verus! {

/// Whether `c` is one of the ten decimal digits.
pub open spec fn is_digit(c: char) -> bool {
    '0' as u32 <= c as u32 <= '9' as u32
}

/// The number a decimal digit stands for.
pub open spec fn digit_value(c: char) -> nat
    recommends
        is_digit(c),
{
    (c as u32 - '0' as u32) as nat
}

/// The key after reading one more character: a digit is appended to the
/// number read so far, which stays at `u64::MAX` once it would pass it; any
/// other character leaves the key as it is.
pub open spec fn key_step(k: nat, c: char) -> nat {
    if is_digit(c) {
        if k * 10 + digit_value(c) > u64::MAX {
            u64::MAX as nat
        } else {
            k * 10 + digit_value(c)
        }
    } else {
        k
    }
}

/// The numeric key of an identifier: the number spelled by its decimal digits
/// read from left to right, other characters skipped, capped at `u64::MAX`.
/// An identifier without digits has key 0.
pub open spec fn numeric_key(id: Seq<char>) -> nat
    decreases id.len(),
{
    if id.len() == 0 {
        0
    } else {
        key_step(numeric_key(id.drop_last()), id.last())
    }
}

/// Whether the keys of `s` never decrease from left to right.
pub open spec fn sorted_by_key(s: Seq<QuestionView>) -> bool {
    forall|i: int, j: int|
        0 <= i < j < s.len() ==> numeric_key(#[trigger] s[i].id) <= numeric_key(#[trigger] s[j].id)
}

/// The number of leading questions of `s` whose key is at most `k`: where a
/// question with key `k` is put into a sorted `s`, behind every question with
/// the same key.
pub open spec fn slot(s: Seq<QuestionView>, k: nat) -> int
    decreases s.len(),
{
    if s.len() == 0 || numeric_key(s[0].id) > k {
        0
    } else {
        1 + slot(s.drop_first(), k)
    }
}

/// `s` with `q` put in at its slot.
pub open spec fn place(s: Seq<QuestionView>, q: QuestionView) -> Seq<QuestionView> {
    s.insert(slot(s, numeric_key(q.id)), q)
}

/// The questions of `s` in canonical order: each in turn is put into the
/// questions before it, so that questions with equal keys keep their order.
pub open spec fn canonical(s: Seq<QuestionView>) -> Seq<QuestionView>
    decreases s.len(),
{
    if s.len() == 0 {
        Seq::empty()
    } else {
        place(canonical(s.drop_last()), s.last())
    }
}

/// The slot lies within the sequence, every question before it has a key of
/// at most `k`, and the question at it, if any, has a larger one.
pub proof fn lemma_slot(s: Seq<QuestionView>, k: nat)
    ensures
        0 <= slot(s, k) <= s.len(),
        forall|i: int| 0 <= i < slot(s, k) ==> numeric_key(#[trigger] s[i].id) <= k,
        slot(s, k) < s.len() ==> numeric_key(s[slot(s, k)].id) > k,
    decreases s.len(),
{
    if s.len() == 0 || numeric_key(s[0].id) > k {
    } else {
        let t = s.drop_first();
        lemma_slot(t, k);
        assert forall|i: int| 0 <= i < slot(s, k) implies numeric_key(#[trigger] s[i].id) <= k by {
            if i > 0 {
                assert(s[i] == t[i - 1]);
            }
        }
        if slot(s, k) < s.len() {
            assert(s[slot(s, k)] == t[slot(t, k)]);
        }
    }
}

/// Putting a question into a sorted sequence leaves it sorted.
pub proof fn lemma_place_sorted(s: Seq<QuestionView>, q: QuestionView)
    requires
        sorted_by_key(s),
    ensures
        sorted_by_key(place(s, q)),
        place(s, q).len() == s.len() + 1,
{
    let k = numeric_key(q.id);
    let p = slot(s, k);
    lemma_slot(s, k);
    let r = place(s, q);
    assert forall|i: int, j: int| 0 <= i < j < r.len() implies numeric_key(#[trigger] r[i].id)
        <= numeric_key(#[trigger] r[j].id) by {
        if j < p {
            assert(r[i] == s[i] && r[j] == s[j]);
        } else if j == p {
            assert(r[i] == s[i]);
        } else if i < p {
            assert(r[i] == s[i] && r[j] == s[j - 1]);
            if p < j - 1 {
                assert(numeric_key(s[p].id) <= numeric_key(s[j - 1].id));
            }
        } else if i == p {
            assert(r[j] == s[j - 1]);
            if p < j - 1 {
                assert(numeric_key(s[p].id) <= numeric_key(s[j - 1].id));
            }
        } else {
            assert(r[i] == s[i - 1] && r[j] == s[j - 1]);
        }
    }
}

/// The canonical order is sorted by key and as long as what it orders.
pub proof fn lemma_canonical_sorted(s: Seq<QuestionView>)
    ensures
        sorted_by_key(canonical(s)),
        canonical(s).len() == s.len(),
    decreases s.len(),
{
    if s.len() > 0 {
        lemma_canonical_sorted(s.drop_last());
        lemma_place_sorted(canonical(s.drop_last()), s.last());
    }
}

/// In a sorted sequence, the slot of a key that is at least the last key is
/// the end.
pub proof fn lemma_slot_at_end(s: Seq<QuestionView>, k: nat)
    requires
        forall|i: int| 0 <= i < s.len() ==> numeric_key(#[trigger] s[i].id) <= k,
    ensures
        slot(s, k) == s.len(),
    decreases s.len(),
{
    if s.len() > 0 {
        assert(numeric_key(s[0].id) <= k);
        let t = s.drop_first();
        assert forall|i: int| 0 <= i < t.len() implies numeric_key(#[trigger] t[i].id) <= k by {
            assert(t[i] == s[i + 1]);
        }
        lemma_slot_at_end(t, k);
    }
}

/// Ordering what is already sorted changes nothing.
pub proof fn lemma_canonical_of_sorted(s: Seq<QuestionView>)
    requires
        sorted_by_key(s),
    ensures
        canonical(s) == s,
    decreases s.len(),
{
    if s.len() > 0 {
        let t = s.drop_last();
        assert forall|i: int, j: int| 0 <= i < j < t.len() implies numeric_key(#[trigger] t[i].id)
            <= numeric_key(#[trigger] t[j].id) by {
            assert(t[i] == s[i] && t[j] == s[j]);
        }
        lemma_canonical_of_sorted(t);
        let k = numeric_key(s.last().id);
        assert forall|i: int| 0 <= i < t.len() implies numeric_key(#[trigger] t[i].id) <= k by {
            assert(t[i] == s[i]);
            assert(s.last() == s[s.len() - 1]);
        }
        lemma_slot_at_end(t, k);
        assert(t.insert(t.len() as int, s.last()) =~= s);
    }
}

/// Ordering twice gives what ordering once gives.
pub proof fn lemma_canonical_idempotent(s: Seq<QuestionView>)
    ensures
        canonical(canonical(s)) == canonical(s),
{
    lemma_canonical_sorted(s);
    lemma_canonical_of_sorted(canonical(s));
}

/// The canonical order holds the questions it was given, each as often as it
/// was given.
pub proof fn law_canonical_permutes(s: Seq<QuestionView>)
    ensures
        canonical(s).to_multiset() == s.to_multiset(),
    decreases s.len(),
{
    broadcast use vstd::seq_lib::group_to_multiset_ensures;

    if s.len() == 0 {
    } else {
        let t = s.drop_last();
        let c = canonical(t);
        law_canonical_permutes(t);
        lemma_slot(c, numeric_key(s.last().id));
        assert(s =~= t.push(s.last()));
        assert(place(c, s.last()).to_multiset() =~= c.to_multiset().insert(s.last()));
        assert(t.push(s.last()).to_multiset() =~= t.to_multiset().insert(s.last()));
    }
}

/// The questions of `s` whose key is `k`, in the order of `s`.
pub open spec fn with_key(s: Seq<QuestionView>, k: nat) -> Seq<QuestionView>
    decreases s.len(),
{
    if s.len() == 0 {
        Seq::empty()
    } else if numeric_key(s.last().id) == k {
        with_key(s.drop_last(), k).push(s.last())
    } else {
        with_key(s.drop_last(), k)
    }
}

/// A question put in before questions of other keys only joins the
/// questions of its own key at their end, and leaves those of every other
/// key as they are.
pub proof fn lemma_with_key_insert(c: Seq<QuestionView>, p: int, x: QuestionView, k: nat)
    requires
        0 <= p <= c.len(),
        forall|i: int| p <= i < c.len() ==> numeric_key(#[trigger] c[i].id) != numeric_key(x.id),
    ensures
        with_key(c.insert(p, x), k) == if numeric_key(x.id) == k {
            with_key(c, k).push(x)
        } else {
            with_key(c, k)
        },
    decreases c.len(),
{
    let r = c.insert(p, x);
    if p == c.len() {
        assert(r.drop_last() =~= c);
        assert(r.last() == x);
    } else {
        let d = c.drop_last();
        assert(r.last() == c.last());
        assert(r.drop_last() =~= d.insert(p, x));
        assert(c.last() == c[c.len() - 1]);
        assert forall|i: int| p <= i < d.len() implies numeric_key(#[trigger] d[i].id)
            != numeric_key(x.id) by {
            assert(d[i] == c[i]);
        }
        lemma_with_key_insert(d, p, x, k);
    }
}

/// The canonical order is stable: for every key, the questions with that key
/// stand in the order in which they were given.
pub proof fn law_canonical_stable(s: Seq<QuestionView>, k: nat)
    ensures
        with_key(canonical(s), k) == with_key(s, k),
    decreases s.len(),
{
    if s.len() > 0 {
        let t = s.drop_last();
        let c = canonical(t);
        let x = s.last();
        let p = slot(c, numeric_key(x.id));
        law_canonical_stable(t, k);
        lemma_canonical_sorted(t);
        lemma_slot(c, numeric_key(x.id));
        assert forall|i: int| p <= i < c.len() implies numeric_key(#[trigger] c[i].id)
            != numeric_key(x.id) by {
            if p < i {
                assert(numeric_key(c[p].id) <= numeric_key(c[i].id));
            }
        }
        lemma_with_key_insert(c, p, x, k);
    }
}

/// Computes the numeric key of an identifier.
pub fn key_of(id: &str) -> (k: u64)
    ensures
        k as nat == numeric_key(id@),
{
    let n: usize = id.unicode_len();
    let mut k: u64 = 0;
    let mut i: usize = 0;
    while i < n
        invariant
            n == id@.len(),
            i <= n,
            k as nat == numeric_key(id@.take(i as int)),
        decreases n - i,
    {
        let c: char = id.get_char(i);
        proof {
            assert(id@.take(i + 1).drop_last() =~= id@.take(i as int));
            assert(id@.take(i + 1).last() == c);
        }
        if '0' <= c && c <= '9' {
            let d: u128 = (c as u32 - '0' as u32) as u128;
            let next: u128 = (k as u128) * 10 + d;
            if next > u64::MAX as u128 {
                k = u64::MAX;
            } else {
                k = next as u64;
            }
        }
        i += 1;
    }
    proof {
        assert(id@.take(n as int) =~= id@);
    }
    k
}

/// Finds where a question with key `k` goes among the sorted `sorted`.
fn find_slot(sorted: &Vec<Question>, k: u64) -> (p: usize)
    ensures
        p as int == slot(questions_view(sorted@), k as nat),
        p <= sorted.len(),
{
    let ghost s = questions_view(sorted@);
    let mut p: usize = 0;
    proof {
        assert(s.skip(0) =~= s);
    }
    while p < sorted.len()
        invariant
            p <= sorted.len(),
            s == questions_view(sorted@),
            slot(s, k as nat) == p + slot(s.skip(p as int), k as nat),
        decreases sorted.len() - p,
    {
        let kp: u64 = key_of(sorted[p].id.as_str());
        proof {
            assert(s.skip(p as int)[0] == sorted@[p as int]@);
            assert(s.skip(p as int).drop_first() =~= s.skip(p + 1));
        }
        if kp > k {
            return p;
        }
        p += 1;
    }
    proof {
        assert(s.skip(p as int).len() == 0);
    }
    p
}

/// Puts questions into canonical order.
pub fn sort_questions(questions: Vec<Question>) -> (sorted: Vec<Question>)
    ensures
        questions_view(sorted@) == canonical(questions_view(questions@)),
{
    let ghost all = questions_view(questions@);
    let mut sorted: Vec<Question> = Vec::new();
    let mut i: usize = 0;
    proof {
        assert(all.take(0) =~= Seq::<QuestionView>::empty());
    }
    while i < questions.len()
        invariant
            i <= questions.len(),
            all == questions_view(questions@),
            questions_view(sorted@) == canonical(all.take(i as int)),
        decreases questions.len() - i,
    {
        let q: Question = questions[i].duplicate();
        let k: u64 = key_of(q.id.as_str());
        let p: usize = find_slot(&sorted, k);
        let ghost before = questions_view(sorted@);
        proof {
            assert(all.take(i + 1).drop_last() =~= all.take(i as int));
            assert(all.take(i + 1).last() == q@);
        }
        sorted.insert(p, q);
        proof {
            assert(questions_view(sorted@) =~= before.insert(p as int, q@));
        }
        i += 1;
    }
    proof {
        assert(all.take(i as int) =~= all);
    }
    sorted
}

} // verus!
