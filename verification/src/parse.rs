//! Emote reference parser.
//!
//! Message text may contain inline references of the form
//! `<` `a`? `:` name `:` id `>` where name is 2 to 32 ASCII word characters
//! and id is a 17 to 19 digit decimal number. The leading `a` marks an
//! animated emote. The parser scans left to right, emits each match in
//! occurrence order, resumes after the end of a match, and skips a single
//! byte where no match starts. Malformed or partial forms are simply not
//! matches; they never produce an error.

use vstd::prelude::*;

use crate::emote::EmoteRef;
use crate::emote::RefView;

verus! {

/// ASCII word character: letter, digit or underscore.
pub open spec fn is_word_byte(b: u8) -> bool {
    (97u8 <= b && b <= 122u8) || (65u8 <= b && b <= 90u8) || (48u8 <= b && b <= 57u8) || b == 95u8
}

/// ASCII decimal digit.
pub open spec fn is_digit_byte(b: u8) -> bool {
    48u8 <= b && b <= 57u8
}

/// Length of the maximal run of word characters starting at `i`.
pub open spec fn word_run(t: Seq<u8>, i: int) -> nat
    decreases t.len() - i,
{
    if 0 <= i < t.len() && is_word_byte(t[i]) {
        (1 + word_run(t, i + 1)) as nat
    } else {
        0
    }
}

/// Length of the maximal run of digits starting at `i`.
pub open spec fn digit_run(t: Seq<u8>, i: int) -> nat
    decreases t.len() - i,
{
    if 0 <= i < t.len() && is_digit_byte(t[i]) {
        (1 + digit_run(t, i + 1)) as nat
    } else {
        0
    }
}

/// Whether a match starting at `i` carries the animation marker.
pub open spec fn anim_marker(t: Seq<u8>, i: int) -> bool {
    i + 1 < t.len() && t[i + 1] == 97u8
}

/// Position where the colon before the name must stand.
pub open spec fn colon1_pos(t: Seq<u8>, i: int) -> int {
    if anim_marker(t, i) {
        i + 2
    } else {
        i + 1
    }
}

/// First byte of the name.
pub open spec fn name_start(t: Seq<u8>, i: int) -> int {
    colon1_pos(t, i) + 1
}

/// Length of the name candidate: the maximal word-character run.
pub open spec fn name_len(t: Seq<u8>, i: int) -> nat {
    word_run(t, name_start(t, i))
}

/// Position where the colon after the name must stand.
pub open spec fn colon2_pos(t: Seq<u8>, i: int) -> int {
    name_start(t, i) + name_len(t, i)
}

/// First byte of the id digits.
pub open spec fn digits_start(t: Seq<u8>, i: int) -> int {
    colon2_pos(t, i) + 1
}

/// Length of the id candidate: the maximal digit run.
pub open spec fn digits_len(t: Seq<u8>, i: int) -> nat {
    digit_run(t, digits_start(t, i))
}

/// Position where the closing `>` must stand.
pub open spec fn close_pos(t: Seq<u8>, i: int) -> int {
    digits_start(t, i) + digits_len(t, i)
}

/// A full emote reference starts at position `i`.
///
/// The name and the id are maximal runs: a colon can only follow the run it
/// delimits, so this is exactly the set of texts the grammar admits.
pub open spec fn matches_at(t: Seq<u8>, i: int) -> bool {
    &&& 0 <= i < t.len()
    &&& t[i] == 60u8
    &&& colon1_pos(t, i) < t.len()
    &&& t[colon1_pos(t, i)] == 58u8
    &&& 2 <= name_len(t, i) <= 32
    &&& colon2_pos(t, i) < t.len()
    &&& t[colon2_pos(t, i)] == 58u8
    &&& 17 <= digits_len(t, i) <= 19
    &&& close_pos(t, i) < t.len()
    &&& t[close_pos(t, i)] == 62u8
}

/// Index one past the closing `>` of a match at `i`.
pub open spec fn match_end(t: Seq<u8>, i: int) -> int {
    close_pos(t, i) + 1
}

/// Value of a sequence of decimal digit bytes, most significant first.
pub open spec fn digits_val(s: Seq<u8>) -> nat
    decreases s.len(),
{
    if s.len() == 0 {
        0
    } else {
        (digits_val(s.drop_last()) * 10 + (s.last() - 48u8)) as nat
    }
}

/// The name bytes of a match at `i`.
pub open spec fn name_seq(t: Seq<u8>, i: int) -> Seq<u8> {
    t.subrange(name_start(t, i), colon2_pos(t, i))
}

/// The digit bytes of a match at `i`.
pub open spec fn digits_seq(t: Seq<u8>, i: int) -> Seq<u8> {
    t.subrange(digits_start(t, i), close_pos(t, i))
}

/// The reference produced by a match at `i`.
pub open spec fn ref_at(t: Seq<u8>, i: int) -> RefView {
    RefView {
        id: digits_val(digits_seq(t, i)) as u64,
        name: name_seq(t, i),
        animated: anim_marker(t, i),
    }
}

/// All references in `t` from position `i` on, in occurrence order.
pub open spec fn refs_from(t: Seq<u8>, i: int) -> Seq<RefView>
    decreases t.len() - i,
{
    if !(0 <= i < t.len()) {
        Seq::empty()
    } else if matches_at(t, i) {
        seq![ref_at(t, i)] + refs_from(t, match_end(t, i))
    } else {
        refs_from(t, i + 1)
    }
}

/// All emote references in `t`, in occurrence order. The same text always
/// yields the same sequence.
pub open spec fn emote_refs(t: Seq<u8>) -> Seq<RefView> {
    refs_from(t, 0)
}

/// The references of a parsed vector, as mathematical values.
pub open spec fn refs_view(s: Seq<EmoteRef>) -> Seq<RefView> {
    s.map_values(|e: EmoteRef| e@)
}

/// Powers of ten.
pub open spec fn pow10(n: nat) -> nat
    decreases n,
{
    if n == 0 {
        1
    } else {
        10 * pow10((n - 1) as nat)
    }
}

/// Everything inside a digit run is a digit; the run is maximal and stays
/// inside the text.
pub proof fn lemma_digit_run(t: Seq<u8>, i: int)
    requires
        0 <= i <= t.len(),
    ensures
        i + digit_run(t, i) <= t.len(),
        forall|k: int| i <= k < i + digit_run(t, i) ==> is_digit_byte(t[k]),
        i + digit_run(t, i) < t.len() ==> !is_digit_byte(t[i + digit_run(t, i)]),
    decreases t.len() - i,
{
    if i < t.len() && is_digit_byte(t[i]) {
        lemma_digit_run(t, i + 1);
    }
}

/// A match lies inside the text and its end is past its start.
pub proof fn lemma_match_end_bounds(t: Seq<u8>, i: int)
    requires
        matches_at(t, i),
    ensures
        i < match_end(t, i) <= t.len(),
{
}

/// Executable word-character test.
fn is_word_byte_exec(b: u8) -> (r: bool)
    ensures
        r == is_word_byte(b),
{
    (b >= 97u8 && b <= 122u8) || (b >= 65u8 && b <= 90u8) || (b >= 48u8 && b <= 57u8) || b == 95u8
}

/// Executable digit test.
fn is_digit_byte_exec(b: u8) -> (r: bool)
    ensures
        r == is_digit_byte(b),
{
    b >= 48u8 && b <= 57u8
}

/// Executable maximal word run.
fn word_run_exec(t: &Vec<u8>, i: usize) -> (r: usize)
    requires
        i <= t@.len(),
    ensures
        r == word_run(t@, i as int),
        i + r <= t@.len(),
{
    let mut j: usize = i;
    while j < t.len() && is_word_byte_exec(t[j])
        invariant
            i <= j <= t@.len(),
            word_run(t@, i as int) == j - i + word_run(t@, j as int),
        decreases t@.len() - j,
    {
        j = j + 1;
    }
    j - i
}

/// Executable maximal digit run.
fn digit_run_exec(t: &Vec<u8>, i: usize) -> (r: usize)
    requires
        i <= t@.len(),
    ensures
        r == digit_run(t@, i as int),
        i + r <= t@.len(),
{
    let mut j: usize = i;
    while j < t.len() && is_digit_byte_exec(t[j])
        invariant
            i <= j <= t@.len(),
            digit_run(t@, i as int) == j - i + digit_run(t@, j as int),
        decreases t@.len() - j,
    {
        j = j + 1;
    }
    j - i
}

/// Copy of the bytes `t[from..to]`.
fn sub_bytes(t: &Vec<u8>, from: usize, to: usize) -> (r: Vec<u8>)
    requires
        from <= to <= t@.len(),
    ensures
        r@ == t@.subrange(from as int, to as int),
{
    let mut out: Vec<u8> = Vec::new();
    let mut k: usize = from;
    while k < to
        invariant
            from <= k <= to <= t@.len(),
            out@ == t@.subrange(from as int, k as int),
        decreases to - k,
    {
        out.push(t[k]);
        k = k + 1;
        proof {
            assert(out@ =~= t@.subrange(from as int, k as int));
        }
    }
    out
}

/// Value of the `dl` digit bytes starting at `ds`.
fn parse_digits(t: &Vec<u8>, ds: usize, dl: usize) -> (r: u64)
    requires
        ds + dl <= t@.len(),
        dl <= 19,
        forall|k: int| ds <= k < ds + dl ==> is_digit_byte(t@[k]),
    ensures
        r == digits_val(t@.subrange(ds as int, (ds + dl) as int)),
{
    proof {
        reveal_with_fuel(pow10, 20);
    }
    let mut val: u64 = 0;
    let mut k: usize = 0;
    let n: usize = t.len();
    while k < dl
        invariant
            0 <= k <= dl <= 19,
            ds + dl <= n,
            n == t@.len(),
            forall|m: int| ds <= m < ds + dl ==> is_digit_byte(t@[m]),
            val == digits_val(t@.subrange(ds as int, (ds + k) as int)),
            val < pow10(k as nat),
            pow10(19) == 10_000_000_000_000_000_000,
            pow10(18) == 1_000_000_000_000_000_000,
        decreases dl - k,
    {
        proof {
            reveal_with_fuel(pow10, 20);
            let pre = t@.subrange(ds as int, (ds + k) as int);
            let post = t@.subrange(ds as int, (ds + k + 1) as int);
            assert(post.drop_last() =~= pre);
            assert(post.last() == t@[ds + k as int]);
            if k < 18 {
                assert(pow10(k as nat) <= pow10(18)) by {
                    lemma_pow10_le(k as nat, 18);
                }
            } else {
                assert(pow10(k as nat) == pow10(18));
            }
        }
        let d: u8 = t[ds + k] - 48u8;
        val = val * 10 + (d as u64);
        k = k + 1;
    }
    val
}

/// Ten to a smaller power is no larger.
pub proof fn lemma_pow10_le(a: nat, b: nat)
    requires
        a <= b,
    ensures
        pow10(a) <= pow10(b),
    decreases b,
{
    if a < b {
        lemma_pow10_le(a, (b - 1) as nat);
        assert(pow10(b) == 10 * pow10((b - 1) as nat));
        assert(pow10((b - 1) as nat) <= 10 * pow10((b - 1) as nat)) by {
            lemma_pow10_pos((b - 1) as nat);
        }
    }
}

/// Powers of ten are positive.
pub proof fn lemma_pow10_pos(n: nat)
    ensures
        pow10(n) >= 1,
    decreases n,
{
    if n > 0 {
        lemma_pow10_pos((n - 1) as nat);
    }
}

/// Try to recognize a reference starting exactly at `i`; on success return
/// the reference and the index one past its closing `>`.
fn try_match(t: &Vec<u8>, i: usize) -> (r: Option<(EmoteRef, usize)>)
    requires
        i < t@.len(),
    ensures
        (match r {
            Some(p) => {
                &&& matches_at(t@, i as int)
                &&& p.0@ == ref_at(t@, i as int)
                &&& p.1 == match_end(t@, i as int)
            },
            None => !matches_at(t@, i as int),
        }),
{
    let n: usize = t.len();
    if t[i] != 60u8 {
        return None;
    }
    let anim: bool = i + 1 < n && t[i + 1] == 97u8;
    proof {
        assert(anim == anim_marker(t@, i as int));
    }
    let c1: usize = if anim {
        i + 2
    } else {
        i + 1
    };
    if c1 >= t.len() {
        return None;
    }
    if t[c1] != 58u8 {
        return None;
    }
    let ns: usize = c1 + 1;
    let nl: usize = word_run_exec(t, ns);
    if nl < 2 || nl > 32 {
        return None;
    }
    let c2: usize = ns + nl;
    if c2 >= t.len() {
        return None;
    }
    if t[c2] != 58u8 {
        return None;
    }
    let ds: usize = c2 + 1;
    let dl: usize = digit_run_exec(t, ds);
    if dl < 17 || dl > 19 {
        return None;
    }
    let close: usize = ds + dl;
    if close >= t.len() {
        return None;
    }
    if t[close] != 62u8 {
        return None;
    }
    let name: Vec<u8> = sub_bytes(t, ns, c2);
    proof {
        lemma_digit_run(t@, ds as int);
        assert(forall|k: int| ds <= k < ds + dl ==> is_digit_byte(t@[k]));
    }
    let id: u64 = parse_digits(t, ds, dl);
    Some((EmoteRef { id, name, animated: anim }, close + 1))
}

/// Parse every emote reference out of `text`, in occurrence order.
pub fn parse_refs(text: &Vec<u8>) -> (r: Vec<EmoteRef>)
    ensures
        refs_view(r@) == emote_refs(text@),
{
    let mut out: Vec<EmoteRef> = Vec::new();
    let mut i: usize = 0;
    while i < text.len()
        invariant
            i <= text@.len(),
            emote_refs(text@) == refs_view(out@) + refs_from(text@, i as int),
        decreases text@.len() - i,
    {
        match try_match(text, i) {
            Some(p) => {
                let (er, end) = p;
                proof {
                    lemma_match_end_bounds(text@, i as int);
                    assert(refs_from(text@, i as int) == seq![ref_at(text@, i as int)] + refs_from(
                        text@,
                        match_end(text@, i as int),
                    ));
                    assert(refs_view(out@.push(er)) =~= refs_view(out@).push(er@));
                    assert(refs_view(out@).push(er@) + refs_from(text@, end as int) =~= refs_view(
                        out@,
                    ) + refs_from(text@, i as int));
                }
                out.push(er);
                i = end;
            },
            None => {
                proof {
                    assert(refs_from(text@, i as int) == refs_from(text@, i as int + 1));
                }
                i = i + 1;
            },
        }
    }
    proof {
        assert(refs_from(text@, i as int) =~= Seq::<RefView>::empty());
        assert(refs_view(out@) + Seq::<RefView>::empty() =~= refs_view(out@));
    }
    out
}

} // verus!
