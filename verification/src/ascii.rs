//! Byte-oriented engine: only ASCII characters are significant.
//!
//! Every byte outside the ASCII alphanumeric range — including every byte of
//! a multi-byte UTF-8 character — classifies as a word break and is
//! discarded, one code unit at a time. That coarse treatment of non-ASCII
//! input is deliberate: this engine trades Unicode awareness for speed.

use vstd::prelude::*;

use crate::Converted;
use crate::Phase;

verus! {

/// The separator: the ASCII underscore.
pub const UNDERSCORE_BYTE: u8 = 95;

/// An ASCII lowercase letter.
pub open spec fn is_lower_byte(b: u8) -> bool {
    97 <= b && b <= 122
}

/// An ASCII uppercase letter.
pub open spec fn is_upper_byte(b: u8) -> bool {
    65 <= b && b <= 90
}

/// An ASCII decimal digit.
pub open spec fn is_digit_byte(b: u8) -> bool {
    48 <= b && b <= 57
}

/// A byte that canonical output is made of, separators aside.
pub open spec fn is_word_byte(b: u8) -> bool {
    is_lower_byte(b) || is_digit_byte(b)
}

/// An ASCII letter or digit.
pub open spec fn is_alnum_byte(b: u8) -> bool {
    is_lower_byte(b) || is_upper_byte(b) || is_digit_byte(b)
}

/// Case-fold a single byte: uppercase letters map to lowercase, everything
/// else stays as it is.
pub open spec fn fold_byte(b: u8) -> u8 {
    if is_upper_byte(b) {
        (b + 32) as u8
    } else {
        b
    }
}

/// Whether a separator is emitted before `b` when the output already holds
/// `out_len` bytes and the scan stands in phase `ph`.
///
/// An uppercase letter opens a new word unless it extends an acronym run;
/// a lowercase letter or digit opens a new word only at a word break.
pub open spec fn sep_before(ph: Phase, out_len: nat, b: u8) -> bool {
    if is_upper_byte(b) {
        out_len > 0 && !(ph is Acronym)
    } else if is_word_byte(b) {
        out_len > 0 && ph is Boundary
    } else {
        false
    }
}

/// One step of the rewrite: what the output becomes after consuming `b`.
pub open spec fn step_out(out: Seq<u8>, ph: Phase, b: u8) -> Seq<u8> {
    if is_alnum_byte(b) {
        if sep_before(ph, out.len(), b) {
            out.push(UNDERSCORE_BYTE).push(fold_byte(b))
        } else {
            out.push(fold_byte(b))
        }
    } else {
        out
    }
}

/// One step of the rewrite: the phase after consuming `b`.
///
/// A digit is case-neutral: it extends whichever run it is adjacent to.
pub open spec fn step_phase(ph: Phase, b: u8) -> Phase {
    if is_upper_byte(b) {
        Phase::Acronym
    } else if is_lower_byte(b) {
        Phase::Lower
    } else if is_digit_byte(b) {
        if ph is Lower {
            Phase::Lower
        } else {
            Phase::Acronym
        }
    } else {
        Phase::Boundary
    }
}

/// The output after consuming the first `i` bytes of `s`.
pub open spec fn out_upto(s: Seq<u8>, i: int) -> Seq<u8>
    decreases i,
{
    if i <= 0 {
        Seq::empty()
    } else {
        step_out(out_upto(s, i - 1), phase_upto(s, i - 1), s[i - 1])
    }
}

/// The phase after consuming the first `i` bytes of `s`.
pub open spec fn phase_upto(s: Seq<u8>, i: int) -> Phase
    decreases i,
{
    if i <= 0 {
        Phase::Boundary
    } else {
        step_phase(phase_upto(s, i - 1), s[i - 1])
    }
}

/// The snake_case form of `s`: the rewrite applied to the whole input.
pub open spec fn snakecase_spec(s: Seq<u8>) -> Seq<u8> {
    out_upto(s, s.len() as int)
}

/// Position `i` of `s` is acceptable in canonical form: a lowercase letter
/// or digit anywhere, or an underscore that is neither first nor last and
/// is followed by a lowercase letter or digit.
pub open spec fn canonical_at(s: Seq<u8>, i: int) -> bool {
    if s[i] == UNDERSCORE_BYTE {
        0 < i && i + 1 < s.len() && is_word_byte(s[i + 1])
    } else {
        is_word_byte(s[i])
    }
}

/// `s` is already in canonical snake_case form: lowercase alphanumeric words
/// joined by single underscores, with no leading or trailing separator.
pub open spec fn is_canonical(s: Seq<u8>) -> bool {
    forall|i: int| 0 <= i < s.len() ==> canonical_at(s, i)
}

/// An ASCII lowercase letter or digit: the bytes an accepted underscore may
/// be followed by, and the bytes a canonical word is made of.
pub fn is_lower_or_digit(b: u8) -> (r: bool)
    ensures
        r == is_word_byte(b),
{
    (97 <= b && b <= 122) || (48 <= b && b <= 57)
}

/// The phase of the rewrite as the three scan flags encode it: `Lower` once
/// a lowercase letter stands in the current word, `Acronym` otherwise, and
/// `Boundary` only before the first byte.
spec fn flags_phase(i: int, has_lower: bool, has_underscore: bool, has_lower_since: bool) -> Phase {
    if i == 0 {
        Phase::Boundary
    } else if has_lower && (!has_underscore || has_lower_since) {
        Phase::Lower
    } else {
        Phase::Acronym
    }
}

/// Scan the longest canonical prefix of `input`, returning its length and
/// the rewrite phase reached at its end. On the way the scan shows that the
/// rewrite reproduces that prefix verbatim.
fn scan_prefix(input: &Vec<u8>) -> (r: (usize, Phase))
    ensures
        r.0 <= input@.len(),
        forall|j: int| 0 <= j < r.0 ==> canonical_at(input@, j),
        r.0 < input@.len() ==> !canonical_at(input@, r.0 as int),
        out_upto(input@, r.0 as int) == input@.take(r.0 as int),
        phase_upto(input@, r.0 as int) == r.1,
{
    let n = input.len();
    let mut idx: usize = 0;
    let mut has_lower = false;
    let mut has_underscore = false;
    let mut has_lower_since_underscore = false;
    proof {
        assert(out_upto(input@, 0) =~= input@.take(0));
    }
    while idx < n
        invariant
            n == input@.len(),
            idx <= n,
            forall|j: int| 0 <= j < idx ==> canonical_at(input@, j),
            idx == 0 ==> !has_lower && !has_underscore && !has_lower_since_underscore,
            (idx > 0 && input@[idx as int - 1] == UNDERSCORE_BYTE) ==> {
                &&& out_upto(input@, idx as int) == input@.take(idx as int - 1)
                &&& phase_upto(input@, idx as int) is Boundary
                &&& idx < n
                &&& is_word_byte(input@[idx as int])
                &&& has_underscore
                &&& !has_lower_since_underscore
            },
            !(idx > 0 && input@[idx as int - 1] == UNDERSCORE_BYTE) ==> {
                &&& out_upto(input@, idx as int) == input@.take(idx as int)
                &&& phase_upto(input@, idx as int) == flags_phase(
                    idx as int,
                    has_lower,
                    has_underscore,
                    has_lower_since_underscore,
                )
            },
        decreases n - idx,
    {
        let b = input[idx];
        if 97 <= b && b <= 122 {
            has_lower = true;
            if has_underscore {
                has_lower_since_underscore = true;
            }
            proof {
                if idx > 0 {
                    assert(canonical_at(input@, idx as int - 1));
                }
                lemma_scan_step(input@, idx as int);
            }
            idx = idx + 1;
        } else if 48 <= b && b <= 57 {
            proof {
                if idx > 0 {
                    assert(canonical_at(input@, idx as int - 1));
                }
                lemma_scan_step(input@, idx as int);
            }
            idx = idx + 1;
        } else if b == UNDERSCORE_BYTE && idx > 0 && idx + 1 < n && is_lower_or_digit(
            input[idx + 1],
        ) {
            has_underscore = true;
            has_lower_since_underscore = false;
            proof {
                if idx > 0 {
                    assert(canonical_at(input@, idx as int - 1));
                }
                lemma_scan_step(input@, idx as int);
            }
            idx = idx + 1;
        } else {
            let ph = if idx == 0 {
                Phase::Boundary
            } else if has_lower && (!has_underscore || has_lower_since_underscore) {
                Phase::Lower
            } else {
                Phase::Acronym
            };
            return (idx, ph);
        }
    }
    let ph = if idx == 0 {
        Phase::Boundary
    } else if has_lower && (!has_underscore || has_lower_since_underscore) {
        Phase::Lower
    } else {
        Phase::Acronym
    };
    (idx, ph)
}

/// The two sequence equalities a scan step rests on: consuming one more byte
/// of the prefix extends the copied part by that byte (after a separator,
/// by the underscore and the byte together).
proof fn lemma_scan_step(s: Seq<u8>, i: int)
    requires
        0 <= i < s.len(),
    ensures
        s.take(i).push(s[i]) =~= s.take(i + 1),
        i > 0 ==> s.take(i - 1).push(s[i - 1]).push(s[i]) =~= s.take(i + 1),
{
}

/// Convert `input` to snake_case.
///
/// When `input` is already canonical the original data is kept and nothing
/// is allocated; otherwise a fresh buffer holds the rewritten form. Either
/// way the value the caller ends up with is exactly the rewrite of the whole
/// input.
pub fn to_snakecase(input: &Vec<u8>) -> (r: Converted<u8>)
    ensures
        r is Borrowed <==> is_canonical(input@),
        r.result(input@) == snakecase_spec(input@),
        is_canonical(r.result(input@)),
{
    let n = input.len();
    let (start, mut phase) = scan_prefix(input);
    if start >= n {
        proof {
            assert(input@.take(n as int) =~= input@);
        }
        return Converted::Borrowed;
    }
    proof {
        lemma_output_canonical(input@);
    }
    let ghost stop = start as int;
    let mut result: Vec<u8> = Vec::with_capacity(n);
    let mut j: usize = 0;
    while j < start
        invariant
            j <= start,
            start <= n,
            n == input@.len(),
            result@ == input@.take(j as int),
        decreases start - j,
    {
        let b = input[j];
        result.push(b);
        proof {
            assert(input@.take(j as int).push(input@[j as int]) =~= input@.take(j as int + 1));
        }
        j = j + 1;
    }
    let mut idx = start;
    while idx < n
        invariant
            idx <= n,
            n == input@.len(),
            result@ == out_upto(input@, idx as int),
            phase == phase_upto(input@, idx as int),
            0 <= stop < n,
            !canonical_at(input@, stop),
        decreases n - idx,
    {
        let b = input[idx];
        if 65 <= b && b <= 90 {
            if result.len() > 0 && !matches!(phase, Phase::Acronym) {
                result.push(UNDERSCORE_BYTE);
            }
            result.push(b + 32);
            phase = Phase::Acronym;
        } else if 97 <= b && b <= 122 {
            if result.len() > 0 && matches!(phase, Phase::Boundary) {
                result.push(UNDERSCORE_BYTE);
            }
            result.push(b);
            phase = Phase::Lower;
        } else if 48 <= b && b <= 57 {
            if result.len() > 0 && matches!(phase, Phase::Boundary) {
                result.push(UNDERSCORE_BYTE);
            }
            result.push(b);
            if !matches!(phase, Phase::Lower) {
                phase = Phase::Acronym;
            }
        } else {
            phase = Phase::Boundary;
        }
        idx = idx + 1;
    }
    Converted::Owned(result)
}

/// The shape the rewrite keeps at every step: what is built so far is
/// canonical and never ends with a separator.
spec fn shaped(out: Seq<u8>) -> bool {
    is_canonical(out) && (out.len() > 0 ==> is_word_byte(out.last()))
}

proof fn lemma_push_word(out: Seq<u8>, b: u8)
    requires
        shaped(out),
        is_word_byte(b),
    ensures
        shaped(out.push(b)),
{
    let res = out.push(b);
    assert forall|i: int| 0 <= i < res.len() implies canonical_at(res, i) by {
        if i < out.len() {
            assert(canonical_at(out, i));
        }
    }
}

proof fn lemma_push_sep_word(out: Seq<u8>, b: u8)
    requires
        shaped(out),
        out.len() > 0,
        is_word_byte(b),
    ensures
        shaped(out.push(UNDERSCORE_BYTE).push(b)),
{
    let res = out.push(UNDERSCORE_BYTE).push(b);
    assert forall|i: int| 0 <= i < res.len() implies canonical_at(res, i) by {
        if i < out.len() {
            assert(canonical_at(out, i));
        }
    }
}

proof fn lemma_step_shaped(out: Seq<u8>, ph: Phase, b: u8)
    requires
        shaped(out),
    ensures
        shaped(step_out(out, ph, b)),
{
    if is_alnum_byte(b) {
        let f = fold_byte(b);
        if sep_before(ph, out.len(), b) {
            lemma_push_sep_word(out, f);
        } else {
            lemma_push_word(out, f);
        }
    }
}

proof fn lemma_out_upto_shaped(s: Seq<u8>, i: int)
    ensures
        shaped(out_upto(s, i)),
    decreases i,
{
    if i > 0 {
        lemma_out_upto_shaped(s, i - 1);
        lemma_step_shaped(out_upto(s, i - 1), phase_upto(s, i - 1), s[i - 1]);
    }
}

/// Output shape: whatever the input, the rewrite produces canonical
/// snake_case — only lowercase letters, digits and single underscores, with
/// no leading, trailing or doubled separator.
pub proof fn lemma_output_canonical(s: Seq<u8>)
    ensures
        is_canonical(snakecase_spec(s)),
{
    lemma_out_upto_shaped(s, s.len() as int);
}

/// Monotonic case normalization: no uppercase letter ever appears in the
/// output.
pub proof fn lemma_no_upper_in_output(s: Seq<u8>)
    ensures
        forall|i: int|
            0 <= i < snakecase_spec(s).len() ==> !is_upper_byte(#[trigger] snakecase_spec(s)[i]),
{
    lemma_output_canonical(s);
    assert forall|i: int|
        0 <= i < snakecase_spec(s).len() implies !is_upper_byte(snakecase_spec(s)[i]) by {
        assert(canonical_at(snakecase_spec(s), i));
    }
}

proof fn lemma_fixed_upto(s: Seq<u8>, i: int)
    requires
        is_canonical(s),
        0 <= i <= s.len(),
    ensures
        (i > 0 && s[i - 1] == UNDERSCORE_BYTE) ==> out_upto(s, i) == s.take(i - 1) && phase_upto(
            s,
            i,
        ) is Boundary,
        !(i > 0 && s[i - 1] == UNDERSCORE_BYTE) ==> out_upto(s, i) == s.take(i),
        (i > 0 && s[i - 1] != UNDERSCORE_BYTE) ==> !(phase_upto(s, i) is Boundary),
    decreases i,
{
    if i <= 0 {
        assert(out_upto(s, 0) =~= s.take(0));
    } else {
        lemma_fixed_upto(s, i - 1);
        assert(canonical_at(s, i - 1));
        lemma_scan_step(s, i - 1);
        if i - 1 > 0 {
            assert(canonical_at(s, i - 2));
        }
    }
}

/// Canonical fixed point: an input that is already in canonical form is
/// reproduced exactly by the rewrite.
pub proof fn lemma_canonical_fixed_point(s: Seq<u8>)
    requires
        is_canonical(s),
    ensures
        snakecase_spec(s) == s,
{
    let n = s.len() as int;
    lemma_fixed_upto(s, n);
    if n > 0 {
        assert(canonical_at(s, n - 1));
    }
    assert(s.take(n) =~= s);
}

/// Idempotence: converting a second time changes nothing.
pub proof fn lemma_idempotent(s: Seq<u8>)
    ensures
        snakecase_spec(snakecase_spec(s)) == snakecase_spec(s),
{
    lemma_output_canonical(s);
    lemma_canonical_fixed_point(snakecase_spec(s));
}

} // verus!
