//! The quiz-grading engine: score arithmetic and per-question answer
//! comparison. A fill-in-blank answer must match the stored answer
//! exactly, byte for byte. A multiple-choice submission is a
//! comma-separated list of choice identifiers, each trimmed of
//! surrounding whitespace; it is correct exactly when it names every
//! correct choice, once, and nothing else.
use vstd::prelude::*;
use vstd::string::*;

use crate::models::{ChoiceV, Question, QuestionType, QuestionV};
use crate::text::str_eq;

verus! {

/// The score of an attempt, as a whole percentage rounded to the nearest
/// point (halves round up): `round(correct / total * 100)`, and `0` when
/// the attempt had no questions.
pub open spec fn score_of(correct: int, total: int) -> int {
    if total > 0 {
        (200 * correct + total) / (2 * total)
    } else {
        0
    }
}

/// A score over a sane tally — no more answers correct than there were
/// questions — always lands between 0 and 100.
pub proof fn lemma_score_bounds(correct: int, total: int)
    requires
        0 <= correct <= total,
    ensures
        0 <= score_of(correct, total) <= 100,
{
    if total > 0 {
        assert((200 * correct + total) / (2 * total) <= 100) by (nonlinear_arith)
            requires
                0 <= correct <= total,
                total > 0,
        ;
        assert((200 * correct + total) / (2 * total) >= 0) by (nonlinear_arith)
            requires
                0 <= correct,
                total > 0,
        ;
    }
}

/// Computes `score_of` exactly, in wide arithmetic so that no tally can
/// overflow.
pub fn compute_score(correct: u64, total: u64) -> (r: u32)
    requires
        correct <= total,
    ensures
        r == score_of(correct as int, total as int),
        r <= 100,
{
    proof {
        lemma_score_bounds(correct as int, total as int);
    }
    if total == 0 {
        0
    } else {
        let num: u128 = 200u128 * (correct as u128) + (total as u128);
        let den: u128 = 2u128 * (total as u128);
        let q: u128 = num / den;
        q as u32
    }
}

// ============================================
// Trimming
// ============================================
/// The whitespace stripped from around each submitted choice identifier.
pub open spec fn is_ws(c: char) -> bool {
    c == ' ' || c == '\t' || c == '\n' || c == '\r'
}

pub open spec fn leading_ws(s: Seq<char>) -> int
    decreases s.len(),
{
    if s.len() == 0 || !is_ws(s[0]) {
        0
    } else {
        1 + leading_ws(s.drop_first())
    }
}

pub open spec fn trailing_ws(s: Seq<char>) -> int
    decreases s.len(),
{
    if s.len() == 0 || !is_ws(s.last()) {
        0
    } else {
        1 + trailing_ws(s.drop_last())
    }
}

/// A segment with its surrounding whitespace removed.
pub open spec fn trimmed(s: Seq<char>) -> Seq<char> {
    let t = s.skip(leading_ws(s));
    t.take(t.len() - trailing_ws(t))
}

proof fn lemma_leading_ws_at(s: Seq<char>, k: int)
    requires
        0 <= k <= s.len(),
        forall|j: int| 0 <= j < k ==> is_ws(#[trigger] s[j]),
        k == s.len() || !is_ws(s[k]),
    ensures
        leading_ws(s) == k,
    decreases k,
{
    if k == 0 {
    } else {
        assert(is_ws(s[0]));
        lemma_leading_ws_at(s.drop_first(), k - 1);
    }
}

proof fn lemma_trailing_ws_at(s: Seq<char>, k: int)
    requires
        0 <= k <= s.len(),
        forall|j: int| k <= j < s.len() ==> is_ws(#[trigger] s[j]),
        k == 0 || !is_ws(s[k - 1]),
    ensures
        trailing_ws(s) == s.len() - k,
    decreases s.len(),
{
    if k == s.len() {
        if s.len() > 0 {
            assert(!is_ws(s.last()));
        }
    } else {
        assert(is_ws(s.last()));
        lemma_trailing_ws_at(s.drop_last(), k);
    }
}

/// Strips surrounding whitespace from a string.
pub fn trim_str(s: &str) -> (r: String)
    ensures
        r@ == trimmed(s@),
{
    let n = s.unicode_len();
    let mut lo: usize = 0;
    while lo < n && is_ws_char(s.get_char(lo))
        invariant
            n == s@.len(),
            lo <= n,
            forall|j: int| 0 <= j < lo ==> is_ws(#[trigger] s@[j]),
        decreases n - lo,
    {
        lo += 1;
    }
    proof {
        lemma_leading_ws_at(s@, lo as int);
    }
    let mut hi: usize = n;
    while hi > lo && is_ws_char(s.get_char(hi - 1))
        invariant
            n == s@.len(),
            lo <= hi <= n,
            lo == leading_ws(s@),
            lo < n ==> !is_ws(s@[lo as int]),
            forall|j: int| hi <= j < n ==> is_ws(#[trigger] s@[j]),
        decreases hi,
    {
        hi -= 1;
    }
    let r = s.substring_char(lo, hi).to_owned();
    proof {
        let t = s@.skip(lo as int);
        if hi == lo {
            assert(lo == n || !is_ws(s@[lo as int]) || hi == lo);
            assert forall|j: int| 0 <= j < t.len() implies is_ws(#[trigger] t[j]) by {
                assert(t[j] == s@[lo + j]);
            }
            lemma_trailing_ws_at(t, 0);
        } else {
            assert(!is_ws(s@[hi - 1]));
            assert forall|j: int| hi - lo <= j < t.len() implies is_ws(#[trigger] t[j]) by {
                assert(t[j] == s@[lo + j]);
            }
            assert(t[hi - lo - 1] == s@[hi - 1]);
            lemma_trailing_ws_at(t, hi - lo);
        }
        assert(r@ =~= trimmed(s@));
    }
    r
}

fn is_ws_char(c: char) -> (r: bool)
    ensures
        r == is_ws(c),
{
    c == ' ' || c == '\t' || c == '\n' || c == '\r'
}

// ============================================
// Splitting a submission into identifiers
// ============================================
/// Index of the first comma, or -1.
pub open spec fn first_comma(s: Seq<char>) -> int
    decreases s.len(),
{
    if s.len() == 0 {
        -1
    } else if s[0] == ',' {
        0
    } else {
        let r = first_comma(s.drop_first());
        if r == -1 {
            -1
        } else {
            r + 1
        }
    }
}

/// Splits on commas; like the standard splitter, an empty text yields
/// one empty segment.
pub open spec fn split_commas(s: Seq<char>) -> Seq<Seq<char>>
    decreases s.len(),
{
    let i = first_comma(s);
    if i < 0 || i >= s.len() {
        seq![s]
    } else {
        seq![s.take(i)] + split_commas(s.skip(i + 1))
    }
}

/// A submission, read as the trimmed segments between commas.
pub open spec fn parse_answer(s: Seq<char>) -> Seq<Seq<char>> {
    split_commas(s).map_values(|t: Seq<char>| trimmed(t))
}

proof fn lemma_first_comma_at(s: Seq<char>, k: int)
    requires
        0 <= k <= s.len(),
        forall|j: int| 0 <= j < k ==> #[trigger] s[j] != ',',
        k == s.len() || s[k] == ',',
    ensures
        k < s.len() ==> first_comma(s) == k,
        k == s.len() ==> first_comma(s) == -1,
    decreases k,
{
    if k == 0 {
        if s.len() > 0 && s[0] != ',' {
            lemma_first_comma_at(s.drop_first(), 0);
        }
    } else {
        assert(s[0] != ',');
        lemma_first_comma_at(s.drop_first(), k - 1);
    }
}

/// Splits a submission into its trimmed identifiers.
pub fn split_ids(s: &str) -> (r: Vec<String>)
    ensures
        r@.map_values(|t: String| t@) == parse_answer(s@),
    decreases s@.len(),
{
    let n = s.unicode_len();
    let mut k: usize = 0;
    while k < n && s.get_char(k) != ','
        invariant
            n == s@.len(),
            k <= n,
            forall|j: int| 0 <= j < k ==> #[trigger] s@[j] != ',',
        decreases n - k,
    {
        k += 1;
    }
    proof {
        lemma_first_comma_at(s@, k as int);
    }
    if k == n {
        let t = trim_str(s);
        let mut r: Vec<String> = Vec::new();
        r.push(t);
        proof {
            assert(r@.map_values(|t: String| t@) =~= parse_answer(s@));
        }
        r
    } else {
        let head = s.substring_char(0, k);
        let tail = s.substring_char(k + 1, n);
        let t = trim_str(head);
        let mut rest = split_ids(tail);
        let ghost restv = rest@.map_values(|t: String| t@);
        let mut r: Vec<String> = Vec::new();
        r.push(t);
        r.append(&mut rest);
        proof {
            assert(r@.map_values(|t: String| t@) =~= seq![t@] + restv);
            assert(head@ =~= s@.take(k as int));
            assert(tail@ =~= s@.skip(k as int + 1));
            assert(split_commas(s@) == seq![s@.take(k as int)] + split_commas(
                s@.skip(k as int + 1),
            ));
            assert(r@.map_values(|t: String| t@) =~= parse_answer(s@));
        }
        r
    }
}

// ============================================
// Multiset comparison of identifier lists
// ============================================
/// Occurrences of one identifier in a list.
fn count_str(v: &Vec<String>, x: &str) -> (r: u64)
    ensures
        r == v@.map_values(|t: String| t@).to_multiset().count(x@),
{
    broadcast use vstd::seq_lib::group_to_multiset_ensures;

    let ghost s = v@.map_values(|t: String| t@);
    let n = v.len();
    let mut r: u64 = 0;
    let mut i: usize = 0;
    while i < n
        invariant
            n == v.len(),
            s == v@.map_values(|t: String| t@),
            i <= n,
            r <= i,
            r == s.take(i as int).to_multiset().count(x@),
        decreases n - i,
    {
        proof {
            broadcast use vstd::seq_lib::group_to_multiset_ensures;

            s.lemma_take_succ_push(i as int);
            assert(s.take(i as int + 1) == s.take(i as int).push(s[i as int]));
            assert(s.take(i as int).push(s[i as int]).to_multiset() =~= s.take(
                i as int,
            ).to_multiset().insert(s[i as int]));
        }
        if str_eq(v[i].as_str(), x) {
            r += 1;
        }
        i += 1;
    }
    proof {
        s.lemma_take_len();
    }
    r
}

/// Two identifier lists carry the same multiset of identifiers.
pub fn same_id_multiset(a: &Vec<String>, b: &Vec<String>) -> (r: bool)
    ensures
        r == (a@.map_values(|t: String| t@).to_multiset() == b@.map_values(
            |t: String| t@,
        ).to_multiset()),
{
    broadcast use vstd::seq_lib::group_to_multiset_ensures;

    let ghost sa = a@.map_values(|t: String| t@);
    let ghost sb = b@.map_values(|t: String| t@);
    if a.len() != b.len() {
        proof {
            assert(sa.to_multiset().len() == sa.len());
            assert(sb.to_multiset().len() == sb.len());
        }
        return false;
    }
    let n = a.len();
    let mut i: usize = 0;
    while i < n
        invariant
            n == a.len(),
            n == b.len(),
            sa == a@.map_values(|t: String| t@),
            sb == b@.map_values(|t: String| t@),
            i <= n,
            forall|j: int|
                0 <= j < i ==> sa.to_multiset().count(#[trigger] sa[j]) == sb.to_multiset().count(
                    sa[j],
                ),
        decreases n - i,
    {
        let ca = count_str(a, a[i].as_str());
        let cb = count_str(b, a[i].as_str());
        if ca != cb {
            proof {
                assert(sa.to_multiset().count(sa[i as int]) != sb.to_multiset().count(
                    sa[i as int],
                ));
            }
            return false;
        }
        i += 1;
    }
    let mut i: usize = 0;
    while i < n
        invariant
            n == a.len(),
            n == b.len(),
            sa == a@.map_values(|t: String| t@),
            sb == b@.map_values(|t: String| t@),
            i <= n,
            forall|j: int|
                0 <= j < n ==> sa.to_multiset().count(#[trigger] sa[j]) == sb.to_multiset().count(
                    sa[j],
                ),
            forall|j: int|
                0 <= j < i ==> sa.to_multiset().count(#[trigger] sb[j]) == sb.to_multiset().count(
                    sb[j],
                ),
        decreases n - i,
    {
        let ca = count_str(a, b[i].as_str());
        let cb = count_str(b, b[i].as_str());
        if ca != cb {
            proof {
                assert(sa.to_multiset().count(sb[i as int]) != sb.to_multiset().count(
                    sb[i as int],
                ));
            }
            return false;
        }
        i += 1;
    }
    proof {
        assert forall|x: Seq<char>|
            #[trigger] sa.to_multiset().count(x) == sb.to_multiset().count(x) by {
            if sa.to_multiset().count(x) > 0 {
                assert(sa.contains(x));
                let j = choose|j: int| 0 <= j < sa.len() && sa[j] == x;
                assert(sa.to_multiset().count(sa[j]) == sb.to_multiset().count(sa[j]));
            } else if sb.to_multiset().count(x) > 0 {
                assert(sb.contains(x));
                let j = choose|j: int| 0 <= j < sb.len() && sb[j] == x;
                assert(sa.to_multiset().count(sb[j]) == sb.to_multiset().count(sb[j]));
            }
        }
        assert(sa.to_multiset() =~= sb.to_multiset());
    }
    true
}

// ============================================
// Grading
// ============================================
/// A fill-in-blank answer is correct exactly when it equals the stored
/// answer — no trimming, no case folding.
pub open spec fn grade_fill_in(correct: Option<Seq<char>>, answer: Seq<char>) -> bool {
    correct == Option::Some(answer)
}

/// The identifiers of a question's correct choices, in store order.
pub open spec fn correct_choice_ids(choices: Seq<ChoiceV>) -> Seq<Seq<char>> {
    choices.filter(|c: ChoiceV| c.is_correct).map_values(|c: ChoiceV| c.id)
}

/// A multiple-choice submission is correct exactly when the submitted
/// identifiers and the correct ones form the same multiset: every
/// correct choice chosen, once, and nothing else.
pub open spec fn grade_multiple_choice(submitted: Seq<Seq<char>>, correct: Seq<Seq<char>>) -> bool {
    submitted.to_multiset() == correct.to_multiset()
}

/// The grade of one answer against one question.
pub open spec fn grade_answer_spec(q: QuestionV, answer: Seq<char>) -> bool {
    match q.question_type {
        QuestionType::FillInBlank => grade_fill_in(q.correct_answer, answer),
        QuestionType::MultipleChoice => grade_multiple_choice(
            parse_answer(answer),
            correct_choice_ids(q.choices),
        ),
    }
}

/// Grading is commutative under reordering of a multiple-choice
/// submission: two submissions naming the same identifiers the same
/// number of times grade identically.
pub proof fn lemma_grade_reorder(s1: Seq<Seq<char>>, s2: Seq<Seq<char>>, correct: Seq<Seq<char>>)
    requires
        s1.to_multiset() == s2.to_multiset(),
    ensures
        grade_multiple_choice(s1, correct) == grade_multiple_choice(s2, correct),
{
}

/// The same, lifted to whole submissions: two multiple-choice
/// submissions whose trimmed identifier lists agree as multisets — for
/// instance one a reordering of the other — grade identically against
/// any question.
pub proof fn lemma_grade_answer_reorder(q: QuestionV, a1: Seq<char>, a2: Seq<char>)
    requires
        q.question_type == QuestionType::MultipleChoice,
        parse_answer(a1).to_multiset() == parse_answer(a2).to_multiset(),
    ensures
        grade_answer_spec(q, a1) == grade_answer_spec(q, a2),
{
    lemma_grade_reorder(parse_answer(a1), parse_answer(a2), correct_choice_ids(q.choices));
}

/// Grading is sensitive to exact membership: a strict subset of the
/// correct choices grades as incorrect.
pub proof fn lemma_grade_strict_subset(submitted: Seq<Seq<char>>, correct: Seq<Seq<char>>)
    requires
        submitted.to_multiset().subset_of(correct.to_multiset()),
        submitted.len() < correct.len(),
    ensures
        !grade_multiple_choice(submitted, correct),
{
    broadcast use vstd::seq_lib::group_to_multiset_ensures;

    assert(submitted.to_multiset().len() == submitted.len());
    assert(correct.to_multiset().len() == correct.len());
}

/// And a strict superset of the correct choices grades as incorrect too.
pub proof fn lemma_grade_strict_superset(submitted: Seq<Seq<char>>, correct: Seq<Seq<char>>)
    requires
        correct.to_multiset().subset_of(submitted.to_multiset()),
        correct.len() < submitted.len(),
    ensures
        !grade_multiple_choice(submitted, correct),
{
    broadcast use vstd::seq_lib::group_to_multiset_ensures;

    assert(submitted.to_multiset().len() == submitted.len());
    assert(correct.to_multiset().len() == correct.len());
}

/// Grades one submitted answer against a question, exactly as
/// `grade_answer_spec` describes.
pub fn grade_answer(q: &Question, answer: &str) -> (r: bool)
    ensures
        r == grade_answer_spec(q@, answer@),
{
    match q.question_type {
        QuestionType::FillInBlank => {
            match &q.correct_answer {
                Option::Some(ca) => str_eq(ca.as_str(), answer),
                Option::None => false,
            }
        },
        QuestionType::MultipleChoice => {
            let submitted = split_ids(answer);
            let n = q.choices.len();
            let mut correct: Vec<String> = Vec::new();
            let mut i: usize = 0;
            while i < n
                invariant
                    n == q.choices.len(),
                    i <= n,
                    correct@.map_values(|t: String| t@) == q.choices@.map_values(
                        |c: crate::models::Choice| c@,
                    ).take(i as int).filter(|c: ChoiceV| c.is_correct).map_values(
                        |c: ChoiceV| c.id,
                    ),
                decreases n - i,
            {
                let ghost cs = q.choices@.map_values(|c: crate::models::Choice| c@);
                proof {
                    cs.lemma_take_succ_push(i as int);
                    crate::store::lemma_filter_push(
                        cs.take(i as int),
                        cs[i as int],
                        |c: ChoiceV| c.is_correct,
                    );
                }
                if q.choices[i].is_correct {
                    let id = q.choices[i].id.clone();
                    proof {
                        assert(correct@.push(id).map_values(|t: String| t@) =~= correct@.map_values(
                            |t: String| t@,
                        ).push(id@));
                        assert(cs.take(i as int + 1).filter(|c: ChoiceV| c.is_correct).map_values(
                            |c: ChoiceV| c.id,
                        ) =~= cs.take(i as int).filter(|c: ChoiceV| c.is_correct).map_values(
                            |c: ChoiceV| c.id,
                        ).push(cs[i as int].id));
                    }
                    correct.push(id);
                } else {
                    proof {
                        assert(cs.take(i as int + 1).filter(|c: ChoiceV| c.is_correct).map_values(
                            |c: ChoiceV| c.id,
                        ) =~= cs.take(i as int).filter(|c: ChoiceV| c.is_correct).map_values(
                            |c: ChoiceV| c.id,
                        ));
                    }
                }
                i += 1;
            }
            proof {
                let cs = q.choices@.map_values(|c: crate::models::Choice| c@);
                cs.lemma_take_len();
                assert(correct@.map_values(|t: String| t@) == correct_choice_ids(q@.choices));
            }
            same_id_multiset(&submitted, &correct)
        },
    }
}

} // verus!
