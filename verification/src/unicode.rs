//! Codepoint-oriented engine: full Unicode classification.
//!
//! Characters are classified with Unicode case and category semantics:
//! uppercase letters are replaced by their full lowercase mapping (which
//! may be more than one codepoint), lowercase letters and other numeric
//! codepoints are kept verbatim, and everything else — punctuation,
//! whitespace, symbols, and letters that are neither cased nor numeric —
//! is a word break and is discarded. Classification itself is delegated to
//! the standard library; the scan and rewrite around it are verified
//! against named results of those calls.

use vstd::prelude::*;

use crate::Converted;
use crate::Phase;

verus! {

/// What `char::is_lowercase` returns: whether the codepoint has the Unicode
/// `Lowercase` property.
pub uninterp spec fn unicode_lower(c: char) -> bool;

/// What `char::is_uppercase` returns: whether the codepoint has the Unicode
/// `Uppercase` property.
pub uninterp spec fn unicode_upper(c: char) -> bool;

/// What `char::is_numeric` returns: whether the codepoint has a Unicode
/// numeric general category.
pub uninterp spec fn unicode_numeric(c: char) -> bool;

/// What `char::to_lowercase` yields: the full Unicode lowercase mapping of
/// the codepoint, one or more codepoints, a function of the codepoint alone.
pub uninterp spec fn lowered(c: char) -> Seq<char>;

/// Relies on char::is_lowercase: the Unicode Lowercase property, a function
/// of the character alone.
#[verifier::external_body]
fn char_is_lowercase(c: char) -> (r: bool)
    ensures
        r == unicode_lower(c),
{
    c.is_lowercase()
}

/// Relies on char::is_uppercase: the Unicode Uppercase property, a function
/// of the character alone.
#[verifier::external_body]
fn char_is_uppercase(c: char) -> (r: bool)
    ensures
        r == unicode_upper(c),
{
    c.is_uppercase()
}

/// Relies on char::is_numeric: the Unicode numeric categories, a function
/// of the character alone.
#[verifier::external_body]
fn char_is_numeric(c: char) -> (r: bool)
    ensures
        r == unicode_numeric(c),
{
    c.is_numeric()
}

/// Relies on char::to_lowercase: yields the lowercase mapping of the
/// character as one or more characters, determined by the character alone.
/// For any character other than the underscore, no character of the
/// mapping is the underscore: a mapped character yields letters and at
/// most combining marks, and an unmapped character yields itself.
#[verifier::external_body]
fn char_to_lowercase(c: char) -> (r: Vec<char>)
    ensures
        r@ == lowered(c),
        r@.len() >= 1,
        c != UNDERSCORE_CHAR ==> forall|j: int|
            0 <= j < r@.len() ==> (#[trigger] r@[j]) != UNDERSCORE_CHAR,
{
    c.to_lowercase().collect()
}

/// The separator: the underscore codepoint.
pub const UNDERSCORE_CHAR: char = '_';

/// A codepoint the rewrite keeps verbatim: a lowercase letter or a numeric
/// codepoint without the uppercase property. These are the codepoints
/// canonical output is made of, separators aside. The underscore itself is
/// always a separator, and an uppercase codepoint is always lowercased,
/// whatever else the two classify as.
pub open spec fn verbatim_char(c: char) -> bool {
    c != UNDERSCORE_CHAR && !unicode_upper(c) && (unicode_lower(c) || unicode_numeric(c))
}

/// Whether a separator is emitted before `c` when the output already holds
/// `out_len` codepoints and the scan stands in phase `ph`.
///
/// An uppercase letter opens a new word unless it extends an acronym run;
/// a kept codepoint opens a new word only at a word break; everything else
/// is discarded without emitting anything.
pub open spec fn sep_before(ph: Phase, out_len: nat, c: char) -> bool {
    if c == UNDERSCORE_CHAR {
        false
    } else if unicode_upper(c) {
        out_len > 0 && !(ph is Acronym)
    } else if unicode_lower(c) || unicode_numeric(c) {
        out_len > 0 && ph is Boundary
    } else {
        false
    }
}

/// One step of the rewrite: what the output becomes after consuming `c`.
pub open spec fn step_out(out: Seq<char>, ph: Phase, c: char) -> Seq<char> {
    let base = if sep_before(ph, out.len(), c) {
        out.push(UNDERSCORE_CHAR)
    } else {
        out
    };
    if c == UNDERSCORE_CHAR {
        out
    } else if unicode_upper(c) {
        base + lowered(c)
    } else if unicode_lower(c) || unicode_numeric(c) {
        base.push(c)
    } else {
        out
    }
}

/// One step of the rewrite: the phase after consuming `c`.
///
/// A numeric codepoint is case-neutral: it extends whichever run it is
/// adjacent to.
pub open spec fn step_phase(ph: Phase, c: char) -> Phase {
    if c == UNDERSCORE_CHAR {
        Phase::Boundary
    } else if unicode_upper(c) {
        Phase::Acronym
    } else if unicode_lower(c) {
        Phase::Lower
    } else if unicode_numeric(c) {
        if ph is Lower {
            Phase::Lower
        } else {
            Phase::Acronym
        }
    } else {
        Phase::Boundary
    }
}

/// The output after consuming the first `i` codepoints of `s`.
pub open spec fn out_upto(s: Seq<char>, i: int) -> Seq<char>
    decreases i,
{
    if i <= 0 {
        Seq::empty()
    } else {
        step_out(out_upto(s, i - 1), phase_upto(s, i - 1), s[i - 1])
    }
}

/// The phase after consuming the first `i` codepoints of `s`.
pub open spec fn phase_upto(s: Seq<char>, i: int) -> Phase
    decreases i,
{
    if i <= 0 {
        Phase::Boundary
    } else {
        step_phase(phase_upto(s, i - 1), s[i - 1])
    }
}

/// The snake_case form of `s`: the rewrite applied to the whole input.
pub open spec fn snakecase_spec(s: Seq<char>) -> Seq<char> {
    out_upto(s, s.len() as int)
}

/// Position `i` of `s` is acceptable in canonical form: a kept codepoint
/// anywhere, or an underscore that is neither first nor last and is followed
/// by a kept codepoint.
pub open spec fn canonical_at(s: Seq<char>, i: int) -> bool {
    if s[i] == UNDERSCORE_CHAR {
        0 < i && i + 1 < s.len() && verbatim_char(s[i + 1])
    } else {
        verbatim_char(s[i])
    }
}

/// `s` is already in canonical snake_case form: words of lowercase or
/// numeric codepoints joined by single underscores, with no leading or
/// trailing separator.
pub open spec fn is_canonical(s: Seq<char>) -> bool {
    forall|i: int| 0 <= i < s.len() ==> canonical_at(s, i)
}

/// The separator discipline of canonical output: every underscore of `out`
/// is neither first nor last and is not followed by another underscore.
pub open spec fn separators_ok(out: Seq<char>) -> bool {
    forall|i: int|
        0 <= i < out.len() && (#[trigger] out[i]) == UNDERSCORE_CHAR ==> 0 < i && i + 1
            < out.len() && out[i + 1] != UNDERSCORE_CHAR
}

proof fn lemma_canonical_separators(s: Seq<char>)
    requires
        is_canonical(s),
    ensures
        separators_ok(s),
{
    assert forall|i: int|
        0 <= i < s.len() && (#[trigger] s[i]) == UNDERSCORE_CHAR implies 0 < i && i + 1 < s.len()
        && s[i + 1] != UNDERSCORE_CHAR by {
        assert(canonical_at(s, i));
    }
}

proof fn lemma_sep_ok_push(out: Seq<char>, c: char, sep: bool)
    requires
        separators_ok(out),
        c != UNDERSCORE_CHAR,
        sep ==> out.len() > 0,
    ensures
        separators_ok(
            if sep {
                out.push(UNDERSCORE_CHAR).push(c)
            } else {
                out.push(c)
            },
        ),
{
    let res = if sep {
        out.push(UNDERSCORE_CHAR).push(c)
    } else {
        out.push(c)
    };
    assert forall|i: int|
        0 <= i < res.len() && (#[trigger] res[i]) == UNDERSCORE_CHAR implies 0 < i && i + 1
        < res.len() && res[i + 1] != UNDERSCORE_CHAR by {
        if i < out.len() {
            assert(out[i] == UNDERSCORE_CHAR);
        }
    }
}

proof fn lemma_sep_ok_append(out: Seq<char>, w: Seq<char>, sep: bool)
    requires
        separators_ok(out),
        w.len() >= 1,
        forall|j: int| 0 <= j < w.len() ==> (#[trigger] w[j]) != UNDERSCORE_CHAR,
        sep ==> out.len() > 0,
    ensures
        separators_ok(
            if sep {
                out.push(UNDERSCORE_CHAR) + w
            } else {
                out + w
            },
        ),
{
    let res = if sep {
        out.push(UNDERSCORE_CHAR) + w
    } else {
        out + w
    };
    assert forall|i: int|
        0 <= i < res.len() && (#[trigger] res[i]) == UNDERSCORE_CHAR implies 0 < i && i + 1
        < res.len() && res[i + 1] != UNDERSCORE_CHAR by {
        if i < out.len() {
            assert(out[i] == UNDERSCORE_CHAR);
        } else if sep && i == out.len() {
            assert(res[i + 1] == w[0]);
        } else if sep {
            assert(res[i] == w[i - out.len() - 1]);
        } else {
            assert(res[i] == w[i - out.len()]);
        }
    }
}

/// A codepoint an accepted underscore may be followed by: one the rewrite
/// keeps verbatim.
fn is_verbatim_char(c: char) -> (r: bool)
    ensures
        r == verbatim_char(c),
{
    c != UNDERSCORE_CHAR && !char_is_uppercase(c) && (char_is_lowercase(c) || char_is_numeric(c))
}

/// The phase of the rewrite as the three scan flags encode it: `Lower` once
/// a lowercase letter stands in the current word, `Acronym` otherwise, and
/// `Boundary` only before the first codepoint.
spec fn flags_phase(i: int, has_lower: bool, has_underscore: bool, has_lower_since: bool) -> Phase {
    if i == 0 {
        Phase::Boundary
    } else if has_lower && (!has_underscore || has_lower_since) {
        Phase::Lower
    } else {
        Phase::Acronym
    }
}

/// The two sequence equalities a scan step rests on: consuming one more
/// codepoint of the prefix extends the copied part by that codepoint (after
/// a separator, by the underscore and the codepoint together).
proof fn lemma_scan_step(s: Seq<char>, i: int)
    requires
        0 <= i < s.len(),
    ensures
        s.take(i).push(s[i]) =~= s.take(i + 1),
        i > 0 ==> s.take(i - 1).push(s[i - 1]).push(s[i]) =~= s.take(i + 1),
{
}

/// Scan the longest canonical prefix of `input`, returning its length and
/// the rewrite phase reached at its end. On the way the scan shows that the
/// rewrite reproduces that prefix verbatim.
fn scan_prefix(input: &Vec<char>) -> (r: (usize, Phase))
    ensures
        r.0 <= input@.len(),
        forall|j: int| 0 <= j < r.0 ==> canonical_at(input@, j),
        r.0 < input@.len() ==> !canonical_at(input@, r.0 as int),
        out_upto(input@, r.0 as int) == input@.take(r.0 as int),
        phase_upto(input@, r.0 as int) == r.1,
{
    let n = input.len();
    let mut idx: usize = 0;
    let mut has_lower = false;
    let mut has_underscore = false;
    let mut has_lower_since_underscore = false;
    proof {
        assert(out_upto(input@, 0) =~= input@.take(0));
    }
    while idx < n
        invariant
            n == input@.len(),
            idx <= n,
            forall|j: int| 0 <= j < idx ==> canonical_at(input@, j),
            idx == 0 ==> !has_lower && !has_underscore && !has_lower_since_underscore,
            (idx > 0 && input@[idx as int - 1] == UNDERSCORE_CHAR) ==> {
                &&& out_upto(input@, idx as int) == input@.take(idx as int - 1)
                &&& phase_upto(input@, idx as int) is Boundary
                &&& idx < n
                &&& verbatim_char(input@[idx as int])
                &&& has_underscore
                &&& !has_lower_since_underscore
            },
            !(idx > 0 && input@[idx as int - 1] == UNDERSCORE_CHAR) ==> {
                &&& out_upto(input@, idx as int) == input@.take(idx as int)
                &&& phase_upto(input@, idx as int) == flags_phase(
                    idx as int,
                    has_lower,
                    has_underscore,
                    has_lower_since_underscore,
                )
            },
        decreases n - idx,
    {
        let c = input[idx];
        if c == UNDERSCORE_CHAR && idx > 0 && idx + 1 < n && is_verbatim_char(input[idx + 1]) {
            has_underscore = true;
            has_lower_since_underscore = false;
            proof {
                if idx > 0 {
                    assert(canonical_at(input@, idx as int - 1));
                }
                lemma_scan_step(input@, idx as int);
            }
            idx = idx + 1;
        } else if c != UNDERSCORE_CHAR && !char_is_uppercase(c) && char_is_lowercase(c) {
            has_lower = true;
            if has_underscore {
                has_lower_since_underscore = true;
            }
            proof {
                if idx > 0 {
                    assert(canonical_at(input@, idx as int - 1));
                }
                lemma_scan_step(input@, idx as int);
            }
            idx = idx + 1;
        } else if c != UNDERSCORE_CHAR && !char_is_uppercase(c) && char_is_numeric(c) {
            proof {
                if idx > 0 {
                    assert(canonical_at(input@, idx as int - 1));
                }
                lemma_scan_step(input@, idx as int);
            }
            idx = idx + 1;
        } else {
            let ph = if idx == 0 {
                Phase::Boundary
            } else if has_lower && (!has_underscore || has_lower_since_underscore) {
                Phase::Lower
            } else {
                Phase::Acronym
            };
            return (idx, ph);
        }
    }
    let ph = if idx == 0 {
        Phase::Boundary
    } else if has_lower && (!has_underscore || has_lower_since_underscore) {
        Phase::Lower
    } else {
        Phase::Acronym
    };
    (idx, ph)
}

/// Convert `input` to snake_case with Unicode semantics.
///
/// When `input` is already canonical the original data is kept and nothing
/// is allocated; otherwise a fresh buffer holds the rewritten form. Either
/// way the value the caller ends up with is exactly the rewrite of the whole
/// input.
pub fn to_snakecase(input: &Vec<char>) -> (r: Converted<char>)
    ensures
        r is Borrowed <==> is_canonical(input@),
        r.result(input@) == snakecase_spec(input@),
        separators_ok(r.result(input@)),
        tame_seq(input@) ==> is_canonical(r.result(input@)),
{
    let n = input.len();
    let (start, mut phase) = scan_prefix(input);
    if start >= n {
        proof {
            assert(input@.take(n as int) =~= input@);
            lemma_canonical_separators(input@);
        }
        return Converted::Borrowed;
    }
    proof {
        if tame_seq(input@) {
            lemma_output_canonical(input@);
        }
    }
    let ghost stop = start as int;
    let mut result: Vec<char> = Vec::with_capacity(n);
    let mut j: usize = 0;
    while j < start
        invariant
            j <= start,
            start <= n,
            n == input@.len(),
            result@ == input@.take(j as int),
        decreases start - j,
    {
        let c = input[j];
        result.push(c);
        proof {
            assert(input@.take(j as int).push(input@[j as int]) =~= input@.take(j as int + 1));
        }
        j = j + 1;
    }
    proof {
        // the prefix never ends with a separator: the scan would have
        // accepted the kept codepoint after it
        let s: Seq<char> = input@;
        let p: int = start as int;
        assert(!(p > 0 && s[p - 1] == UNDERSCORE_CHAR)) by {
            if p > 0 && s[p - 1] == UNDERSCORE_CHAR {
                assert(canonical_at(s, p - 1));
                assert(canonical_at(s, p));
            }
        }
        assert forall|i: int|
            0 <= i < p && (#[trigger] s.take(p)[i]) == UNDERSCORE_CHAR implies 0 < i && i + 1 < p
            && s.take(p)[i + 1] != UNDERSCORE_CHAR by {
            assert(canonical_at(s, i));
        }
        assert(separators_ok(s.take(p)));
    }
    let mut idx = start;
    while idx < n
        invariant
            idx <= n,
            n == input@.len(),
            result@ == out_upto(input@, idx as int),
            phase == phase_upto(input@, idx as int),
            separators_ok(result@),
            0 <= stop < n,
            !canonical_at(input@, stop),
        decreases n - idx,
    {
        let c = input[idx];
        if c == UNDERSCORE_CHAR {
            phase = Phase::Boundary;
        } else if char_is_uppercase(c) {
            let ghost before = result@;
            let sep = result.len() > 0 && !matches!(phase, Phase::Acronym);
            if sep {
                result.push(UNDERSCORE_CHAR);
            }
            let mut low = char_to_lowercase(c);
            proof {
                lemma_sep_ok_append(before, low@, sep);
            }
            result.append(&mut low);
            phase = Phase::Acronym;
        } else if char_is_lowercase(c) {
            let ghost before = result@;
            let sep = result.len() > 0 && matches!(phase, Phase::Boundary);
            if sep {
                result.push(UNDERSCORE_CHAR);
            }
            result.push(c);
            proof {
                lemma_sep_ok_push(before, c, sep);
            }
            phase = Phase::Lower;
        } else if char_is_numeric(c) {
            let ghost before = result@;
            let sep = result.len() > 0 && matches!(phase, Phase::Boundary);
            if sep {
                result.push(UNDERSCORE_CHAR);
            }
            result.push(c);
            proof {
                lemma_sep_ok_push(before, c, sep);
            }
            if !matches!(phase, Phase::Lower) {
                phase = Phase::Acronym;
            }
        } else {
            // neither a separator nor cased nor numeric: a word break,
            // nothing is emitted
            phase = Phase::Boundary;
        }
        idx = idx + 1;
    }
    Converted::Owned(result)
}

/// A codepoint whose lowercase mapping lands on kept codepoints: if the
/// rewrite lowercases it, the mapping is nonempty and made of lowercase or
/// numeric codepoints. Letters whose lowercase mapping contains a
/// combining mark, or no lowercase codepoint at all, fall outside this.
pub open spec fn tame(c: char) -> bool {
    (c != UNDERSCORE_CHAR && unicode_upper(c)) ==> {
        &&& lowered(c).len() >= 1
        &&& forall|j: int| 0 <= j < lowered(c).len() ==> verbatim_char(#[trigger] lowered(c)[j])
    }
}

/// Every codepoint of `s` is tame.
pub open spec fn tame_seq(s: Seq<char>) -> bool {
    forall|i: int| 0 <= i < s.len() ==> tame(#[trigger] s[i])
}

/// The shape the rewrite keeps at every step: what is built so far is
/// canonical and never ends with a separator.
spec fn shaped(out: Seq<char>) -> bool {
    is_canonical(out) && (out.len() > 0 ==> verbatim_char(out.last()))
}

proof fn lemma_push_word(out: Seq<char>, c: char)
    requires
        shaped(out),
        verbatim_char(c),
    ensures
        shaped(out.push(c)),
{
    let res = out.push(c);
    assert forall|i: int| 0 <= i < res.len() implies canonical_at(res, i) by {
        if i < out.len() {
            assert(canonical_at(out, i));
        }
    }
}

proof fn lemma_push_sep_word(out: Seq<char>, c: char)
    requires
        shaped(out),
        out.len() > 0,
        verbatim_char(c),
    ensures
        shaped(out.push(UNDERSCORE_CHAR).push(c)),
{
    let res = out.push(UNDERSCORE_CHAR).push(c);
    assert forall|i: int| 0 <= i < res.len() implies canonical_at(res, i) by {
        if i < out.len() {
            assert(canonical_at(out, i));
        }
    }
}

proof fn lemma_append_word(out: Seq<char>, w: Seq<char>)
    requires
        shaped(out),
        w.len() >= 1,
        forall|j: int| 0 <= j < w.len() ==> verbatim_char(#[trigger] w[j]),
    ensures
        shaped(out + w),
{
    let res = out + w;
    assert forall|i: int| 0 <= i < res.len() implies canonical_at(res, i) by {
        if i < out.len() {
            assert(canonical_at(out, i));
        } else {
            assert(verbatim_char(w[i - out.len()]));
        }
    }
    assert(res.last() == w.last());
}

proof fn lemma_append_sep_word(out: Seq<char>, w: Seq<char>)
    requires
        shaped(out),
        out.len() > 0,
        w.len() >= 1,
        forall|j: int| 0 <= j < w.len() ==> verbatim_char(#[trigger] w[j]),
    ensures
        shaped(out.push(UNDERSCORE_CHAR) + w),
{
    let res = out.push(UNDERSCORE_CHAR) + w;
    assert forall|i: int| 0 <= i < res.len() implies canonical_at(res, i) by {
        if i < out.len() {
            assert(canonical_at(out, i));
        } else if i == out.len() {
            assert(res[i] == UNDERSCORE_CHAR);
            assert(verbatim_char(w[0]));
        } else {
            assert(verbatim_char(w[i - out.len() - 1]));
        }
    }
    assert(res.last() == w.last());
}

proof fn lemma_step_shaped(out: Seq<char>, ph: Phase, c: char)
    requires
        shaped(out),
        tame(c),
    ensures
        shaped(step_out(out, ph, c)),
{
    if c == UNDERSCORE_CHAR {
    } else if unicode_upper(c) {
        if sep_before(ph, out.len(), c) {
            lemma_append_sep_word(out, lowered(c));
        } else {
            lemma_append_word(out, lowered(c));
        }
    } else if unicode_lower(c) || unicode_numeric(c) {
        if sep_before(ph, out.len(), c) {
            lemma_push_sep_word(out, c);
        } else {
            lemma_push_word(out, c);
        }
    } else {
        // neither a separator nor cased nor numeric: nothing is emitted
    }
}

proof fn lemma_out_upto_shaped(s: Seq<char>, i: int)
    requires
        tame_seq(s),
        0 <= i <= s.len(),
    ensures
        shaped(out_upto(s, i)),
    decreases i,
{
    if i > 0 {
        lemma_out_upto_shaped(s, i - 1);
        assert(tame(s[i - 1]));
        lemma_step_shaped(out_upto(s, i - 1), phase_upto(s, i - 1), s[i - 1]);
    }
}

/// Output shape, for inputs made of tame codepoints: the rewrite produces
/// canonical snake_case — words of kept codepoints joined by single
/// underscores, with no leading, trailing or doubled separator.
pub proof fn lemma_output_canonical(s: Seq<char>)
    requires
        tame_seq(s),
    ensures
        is_canonical(snakecase_spec(s)),
{
    lemma_out_upto_shaped(s, s.len() as int);
}

proof fn lemma_fixed_upto(s: Seq<char>, i: int)
    requires
        is_canonical(s),
        0 <= i <= s.len(),
    ensures
        (i > 0 && s[i - 1] == UNDERSCORE_CHAR) ==> out_upto(s, i) == s.take(i - 1) && phase_upto(
            s,
            i,
        ) is Boundary,
        !(i > 0 && s[i - 1] == UNDERSCORE_CHAR) ==> out_upto(s, i) == s.take(i),
        (i > 0 && s[i - 1] != UNDERSCORE_CHAR) ==> !(phase_upto(s, i) is Boundary),
    decreases i,
{
    if i <= 0 {
        assert(out_upto(s, 0) =~= s.take(0));
    } else {
        lemma_fixed_upto(s, i - 1);
        assert(canonical_at(s, i - 1));
        lemma_scan_step(s, i - 1);
        if i - 1 > 0 {
            assert(canonical_at(s, i - 2));
        }
    }
}

/// Canonical fixed point: an input that is already in canonical form is
/// reproduced exactly by the rewrite, whatever its codepoints are.
pub proof fn lemma_canonical_fixed_point(s: Seq<char>)
    requires
        is_canonical(s),
    ensures
        snakecase_spec(s) == s,
{
    let n = s.len() as int;
    lemma_fixed_upto(s, n);
    if n > 0 {
        assert(canonical_at(s, n - 1));
    }
    assert(s.take(n) =~= s);
}

/// Idempotence, for inputs made of tame codepoints: converting a second
/// time changes nothing.
pub proof fn lemma_idempotent(s: Seq<char>)
    requires
        tame_seq(s),
    ensures
        snakecase_spec(snakecase_spec(s)) == snakecase_spec(s),
{
    lemma_output_canonical(s);
    lemma_canonical_fixed_point(snakecase_spec(s));
}

/// A codepoint that cannot carry an uppercase letter into the output: if
/// the rewrite lowercases it, its mapping contains no uppercase codepoint.
/// A kept codepoint is never uppercase by definition.
pub open spec fn downcases(c: char) -> bool {
    (c != UNDERSCORE_CHAR && unicode_upper(c)) ==> forall|j: int|
        0 <= j < lowered(c).len() ==> !unicode_upper(#[trigger] lowered(c)[j])
}

/// No codepoint of `out` is uppercase, the underscore separators aside.
spec fn downcased(out: Seq<char>) -> bool {
    forall|i: int|
        0 <= i < out.len() ==> (#[trigger] out[i]) == UNDERSCORE_CHAR || !unicode_upper(out[i])
}

proof fn lemma_step_downcased(out: Seq<char>, ph: Phase, c: char)
    requires
        downcased(out),
        downcases(c),
    ensures
        downcased(step_out(out, ph, c)),
{
    let res = step_out(out, ph, c);
    assert forall|i: int|
        0 <= i < res.len() implies res[i] == UNDERSCORE_CHAR || !unicode_upper(res[i]) by {
        if i < out.len() {
            assert(out[i] == UNDERSCORE_CHAR || !unicode_upper(out[i]));
        }
    }
}

proof fn lemma_out_upto_downcased(s: Seq<char>, i: int)
    requires
        forall|k: int| 0 <= k < s.len() ==> downcases(#[trigger] s[k]),
        0 <= i <= s.len(),
    ensures
        downcased(out_upto(s, i)),
    decreases i,
{
    if i > 0 {
        lemma_out_upto_downcased(s, i - 1);
        assert(downcases(s[i - 1]));
        lemma_step_downcased(out_upto(s, i - 1), phase_upto(s, i - 1), s[i - 1]);
    }
}

/// Monotonic case normalization, for inputs whose codepoints lowercase
/// cleanly: aside from the underscore separators, no uppercase codepoint
/// ever appears in the output.
pub proof fn lemma_no_upper_in_output(s: Seq<char>)
    requires
        forall|k: int| 0 <= k < s.len() ==> downcases(#[trigger] s[k]),
    ensures
        forall|i: int|
            0 <= i < snakecase_spec(s).len() ==> (#[trigger] snakecase_spec(s)[i])
                == UNDERSCORE_CHAR || !unicode_upper(snakecase_spec(s)[i]),
{
    lemma_out_upto_downcased(s, s.len() as int);
}

} // verus!
