//! The mode normalizer: upper-cases the mode text and applies two ordered
//! substitution passes — vendor/brand synonyms first, then the remaining
//! protocol tokens — rewriting every occurrence of a known token into the
//! ADIF mode family vocabulary.  Unrecognized text passes through
//! upper-cased and otherwise unchanged.

use vstd::prelude::*;
use crate::chars::{upper_char, upper_seq, str_to_chars, chars_to_string};
use crate::errors::ConvError;

verus! {

/// Leftmost, non-overlapping replacement of every occurrence of `pat`
/// in `s` by `rep`; the semantics of `str::replace`.
pub open spec fn replace_seq(s: Seq<char>, pat: Seq<char>, rep: Seq<char>) -> Seq<char>
    decreases s.len(),
{
    if pat.len() == 0 || s.len() < pat.len() {
        s
    } else if s.subrange(0, pat.len() as int) == pat {
        rep + replace_seq(s.skip(pat.len() as int), pat, rep)
    } else {
        seq![s[0]] + replace_seq(s.skip(1), pat, rep)
    }
}

/// The synonym pass: vendor/brand mode names to intermediate tokens.
pub open spec fn synonym_table() -> Seq<(Seq<char>, Seq<char>)> {
    seq![
        (seq!['F', 'R', 'E', 'E', 'D', 'V'], digitalvoice_token()),
        (seq!['D', 'V'], digitalvoice_token()),
        (seq!['D', '-', 'S', 'T', 'A', 'R'], seq!['D', 'S', 'T', 'A', 'R']),
        (seq!['F', 'U', 'S', 'I', 'O', 'N'], seq!['D', 'S', 'T', 'A', 'R']),
    ]
}

/// The canonical pass: remaining protocol tokens to ADIF mode families.
pub open spec fn canonical_table() -> Seq<(Seq<char>, Seq<char>)> {
    seq![
        (seq!['F', 'T', '4'], mfsk_token()),
        (seq!['J', 'S', '8'], mfsk_token()),
        (seq!['C', '4', 'F', 'M'], digitalvoice_token()),
        (seq!['D', 'M', 'R'], digitalvoice_token()),
        (seq!['D', 'S', 'T', 'A', 'R'], digitalvoice_token()),
    ]
}

/// The ADIF digital-voice family token.
pub open spec fn digitalvoice_token() -> Seq<char> {
    seq!['D', 'I', 'G', 'I', 'T', 'A', 'L', 'V', 'O', 'I', 'C', 'E']
}

/// The ADIF multi-frequency-shift-keying family token.
pub open spec fn mfsk_token() -> Seq<char> {
    seq!['M', 'F', 'S', 'K']
}

/// Applies the replacement pairs of `tbl` from index `i` on, in
/// declaration order.
pub open spec fn apply_table(s: Seq<char>, tbl: Seq<(Seq<char>, Seq<char>)>, i: int) -> Seq<char>
    decreases tbl.len() - i,
{
    if i < 0 || i >= tbl.len() {
        s
    } else {
        apply_table(replace_seq(s, tbl[i].0, tbl[i].1), tbl, i + 1)
    }
}

/// The whole normalization: upper-case, then both passes in order.
pub open spec fn normalize_mode_spec(s: Seq<char>) -> Seq<char> {
    apply_table(apply_table(upper_seq(s), synonym_table(), 0), canonical_table(), 0)
}

/// Whether `pat` stands at position `i` of `s`, executably.
pub(crate) fn match_at(s: &Vec<char>, i: usize, pat: &Vec<char>) -> (b: bool)
    requires
        i + pat@.len() <= s@.len(),
    ensures
        b == (s@.subrange(i as int, i + pat@.len()) == pat@),
{
    let n = s.len();
    let m = pat.len();
    let mut j: usize = 0;
    while j < m
        invariant
            0 <= j <= m,
            m == pat@.len(),
            n == s@.len(),
            i + m <= n,
            forall|k: int| 0 <= k < j ==> s@[i + k] == pat@[k],
        decreases m - j,
    {
        if s[i + j] != pat[j] {
            assert(s@.subrange(i as int, i + pat@.len())[j as int] != pat@[j as int]);
            return false;
        }
        j += 1;
    }
    assert(s@.subrange(i as int, i + pat@.len()) =~= pat@);
    true
}

/// `replace_seq`, executably.
fn replace_chars(s: &Vec<char>, pat: &Vec<char>, rep: &Vec<char>) -> (out: Vec<char>)
    requires
        pat@.len() >= 1,
    ensures
        out@ == replace_seq(s@, pat@, rep@),
{
    let n = s.len();
    let m = pat.len();
    let mut out: Vec<char> = Vec::new();
    let mut i: usize = 0;
    proof {
        assert(s@.skip(0) =~= s@);
    }
    while i < n
        invariant
            0 <= i <= n,
            n == s@.len(),
            m == pat@.len(),
            m >= 1,
            replace_seq(s@, pat@, rep@) == out@ + replace_seq(s@.skip(i as int), pat@, rep@),
        decreases n - i,
    {
        let ghost rest = s@.skip(i as int);
        if n - i >= m && match_at(s, i, pat) {
            proof {
                assert(rest.subrange(0, m as int) =~= s@.subrange(i as int, i + m));
                assert(rest.skip(m as int) =~= s@.skip(i + m));
                assert(replace_seq(rest, pat@, rep@) == rep@ + replace_seq(
                    s@.skip(i + m),
                    pat@,
                    rep@,
                ));
            }
            let ghost out0 = out@;
            let rl = rep.len();
            let mut j: usize = 0;
            while j < rl
                invariant
                    0 <= j <= rl,
                    rl == rep@.len(),
                    out@ == out0 + rep@.subrange(0, j as int),
                decreases rl - j,
            {
                proof {
                    assert(rep@.subrange(0, j as int).push(rep@[j as int]) =~= rep@.subrange(
                        0,
                        j + 1,
                    ));
                }
                out.push(rep[j]);
                j += 1;
            }
            proof {
                assert(rep@.subrange(0, rl as int) =~= rep@);
            }
            i += m;
        } else {
            proof {
                if rest.len() >= m {
                    assert(rest.subrange(0, m as int) =~= s@.subrange(i as int, i + m));
                }
                assert(rest.skip(1) =~= s@.skip(i + 1));
                assert(seq![rest[0]] =~= seq![s@[i as int]]);
            }
            out.push(s[i]);
            i += 1;
        }
    }
    assert(s@.skip(n as int) =~= Seq::<char>::empty());
    assert(out@ =~= out@ + s@.skip(n as int));
    out
}


/// ASCII upper-casing, executably.
fn upper_chars(s: &Vec<char>) -> (out: Vec<char>)
    ensures
        out@ == upper_seq(s@),
{
    let n = s.len();
    let mut out: Vec<char> = Vec::new();
    let mut i: usize = 0;
    while i < n
        invariant
            0 <= i <= n,
            n == s@.len(),
            out@.len() == i,
            forall|k: int| 0 <= k < i ==> out@[k] == upper_char(s@[k]),
        decreases n - i,
    {
        let c = s[i];
        let v = c as u32;
        if 97 <= v && v <= 122 {
            out.push(((v - 32) as u8) as char);
        } else {
            out.push(c);
        }
        i += 1;
    }
    assert(out@ =~= upper_seq(s@));
    out
}

/// Canonicalizes a free-form mode text into the ADIF mode vocabulary.
/// Never fails: unrecognized input passes through upper-cased unchanged.
#[verifier::rlimit(100)]
pub fn adif_mode_from_hamlog(h_mode: &str) -> (r: Result<String, ConvError>)
    ensures
        match r {
            Ok(m) => m@ == normalize_mode_spec(h_mode@),
            Err(_) => false,
        },
{
    let chars = str_to_chars(h_mode);
    let up = upper_chars(&chars);
    let dv = str_to_chars("DIGITALVOICE");
    let dstar = str_to_chars("DSTAR");
    let mfsk = str_to_chars("MFSK");
    proof {
        reveal_strlit("DIGITALVOICE");
        reveal_strlit("DSTAR");
        reveal_strlit("MFSK");
        assert(dv@ =~= digitalvoice_token());
        assert(dstar@ =~= seq!['D', 'S', 'T', 'A', 'R']);
        assert(mfsk@ =~= mfsk_token());
    }
    let p_freedv = str_to_chars("FREEDV");
    let p_dv = str_to_chars("DV");
    let p_dhstar = str_to_chars("D-STAR");
    let p_fusion = str_to_chars("FUSION");
    let p_ft4 = str_to_chars("FT4");
    let p_js8 = str_to_chars("JS8");
    let p_c4fm = str_to_chars("C4FM");
    let p_dmr = str_to_chars("DMR");
    let p_dstar = str_to_chars("DSTAR");
    proof {
        reveal_strlit("FREEDV");
        reveal_strlit("DV");
        reveal_strlit("D-STAR");
        reveal_strlit("FUSION");
        reveal_strlit("FT4");
        reveal_strlit("JS8");
        reveal_strlit("C4FM");
        reveal_strlit("DMR");
        assert(p_freedv@ =~= seq!['F', 'R', 'E', 'E', 'D', 'V']);
        assert(p_dv@ =~= seq!['D', 'V']);
        assert(p_dhstar@ =~= seq!['D', '-', 'S', 'T', 'A', 'R']);
        assert(p_fusion@ =~= seq!['F', 'U', 'S', 'I', 'O', 'N']);
        assert(p_ft4@ =~= seq!['F', 'T', '4']);
        assert(p_js8@ =~= seq!['J', 'S', '8']);
        assert(p_c4fm@ =~= seq!['C', '4', 'F', 'M']);
        assert(p_dmr@ =~= seq!['D', 'M', 'R']);
    }
    let s1 = replace_chars(&up, &p_freedv, &dv);
    let s2 = replace_chars(&s1, &p_dv, &dv);
    let s3 = replace_chars(&s2, &p_dhstar, &dstar);
    let s4 = replace_chars(&s3, &p_fusion, &dstar);
    let s5 = replace_chars(&s4, &p_ft4, &mfsk);
    let s6 = replace_chars(&s5, &p_js8, &mfsk);
    let s7 = replace_chars(&s6, &p_c4fm, &dv);
    let s8 = replace_chars(&s7, &p_dmr, &dv);
    let s9 = replace_chars(&s8, &p_dstar, &dv);
    proof {
        let syn = synonym_table();
        let can = canonical_table();
        assert(apply_table(up@, syn, 0) == apply_table(s1@, syn, 1));
        assert(apply_table(s1@, syn, 1) == apply_table(s2@, syn, 2));
        assert(apply_table(s2@, syn, 2) == apply_table(s3@, syn, 3));
        assert(apply_table(s3@, syn, 3) == apply_table(s4@, syn, 4));
        assert(apply_table(s4@, syn, 4) == s4@);
        assert(apply_table(s4@, can, 0) == apply_table(s5@, can, 1));
        assert(apply_table(s5@, can, 1) == apply_table(s6@, can, 2));
        assert(apply_table(s6@, can, 2) == apply_table(s7@, can, 3));
        assert(apply_table(s7@, can, 3) == apply_table(s8@, can, 4));
        assert(apply_table(s8@, can, 4) == apply_table(s9@, can, 5));
        assert(apply_table(s9@, can, 5) == s9@);
        assert(s9@ == normalize_mode_spec(h_mode@));
    }
    Ok(chars_to_string(&s9))
}

/// No occurrence of `pat` anywhere in `t`.
pub open spec fn token_free(t: Seq<char>, pat: Seq<char>) -> bool {
    forall|i: int| 0 <= i <= t.len() - pat.len() ==> #[trigger] t.subrange(i, i + pat.len()) != pat
}

/// A text in canonical form: it holds no lower-case ASCII letter and none
/// of the substitutable tokens of either table, so the normalizer leaves
/// it unchanged.
pub open spec fn mode_canonical(t: Seq<char>) -> bool {
    &&& forall|k: int| 0 <= k < t.len() ==> !(97 <= (#[trigger] t[k]) as u32 <= 122)
    &&& forall|j: int|
        0 <= j < synonym_table().len() ==> token_free(t, (#[trigger] synonym_table()[j]).0)
    &&& forall|j: int|
        0 <= j < canonical_table().len() ==> token_free(t, (#[trigger] canonical_table()[j]).0)
}

/// A text in which the pattern does not occur is left unchanged by the
/// replacement.
proof fn lemma_replace_fixed_when_absent(s: Seq<char>, pat: Seq<char>, rep: Seq<char>)
    requires
        pat.len() >= 1,
        token_free(s, pat),
    ensures
        replace_seq(s, pat, rep) == s,
    decreases s.len(),
{
    if s.len() < pat.len() {
    } else if s.subrange(0, pat.len() as int) == pat {
        let z: int = 0;
        assert(s.subrange(z, z + pat.len() as int) =~= s.subrange(0, pat.len() as int));
        assert(s.subrange(z, z + pat.len() as int) != pat);
    } else {
        let tail = s.skip(1);
        assert forall|i: int| 0 <= i <= tail.len() - pat.len() implies #[trigger] tail.subrange(
            i,
            i + pat.len(),
        ) != pat by {
            assert(tail.subrange(i, i + pat.len()) =~= s.subrange(i + 1, i + 1 + pat.len()));
        }
        lemma_replace_fixed_when_absent(tail, pat, rep);
        assert(seq![s[0]] + tail =~= s);
    }
}

/// A text in canonical form is a fixed point of the whole normalization:
/// upper-casing changes none of its characters, and neither substitution
/// pass finds a token to rewrite.
pub proof fn lemma_normalize_mode_fixed_on_canonical(t: Seq<char>)
    requires
        mode_canonical(t),
    ensures
        normalize_mode_spec(t) == t,
{
    let syn = synonym_table();
    let can = canonical_table();
    assert forall|k: int| 0 <= k < t.len() implies upper_char(t[k]) == t[k] by {
        assert(!(97 <= t[k] as u32 <= 122));
    }
    assert(upper_seq(t) =~= t);
    lemma_replace_fixed_when_absent(t, syn[0].0, syn[0].1);
    lemma_replace_fixed_when_absent(t, syn[1].0, syn[1].1);
    lemma_replace_fixed_when_absent(t, syn[2].0, syn[2].1);
    lemma_replace_fixed_when_absent(t, syn[3].0, syn[3].1);
    lemma_replace_fixed_when_absent(t, can[0].0, can[0].1);
    lemma_replace_fixed_when_absent(t, can[1].0, can[1].1);
    lemma_replace_fixed_when_absent(t, can[2].0, can[2].1);
    lemma_replace_fixed_when_absent(t, can[3].0, can[3].1);
    lemma_replace_fixed_when_absent(t, can[4].0, can[4].1);
    assert(apply_table(t, syn, 0) == apply_table(t, syn, 1));
    assert(apply_table(t, syn, 1) == apply_table(t, syn, 2));
    assert(apply_table(t, syn, 2) == apply_table(t, syn, 3));
    assert(apply_table(t, syn, 3) == apply_table(t, syn, 4));
    assert(apply_table(t, syn, 4) == t);
    assert(apply_table(t, can, 0) == apply_table(t, can, 1));
    assert(apply_table(t, can, 1) == apply_table(t, can, 2));
    assert(apply_table(t, can, 2) == apply_table(t, can, 3));
    assert(apply_table(t, can, 3) == apply_table(t, can, 4));
    assert(apply_table(t, can, 4) == apply_table(t, can, 5));
    assert(apply_table(t, can, 5) == t);
}

/// The canonical ADIF family tokens are themselves in canonical form.
pub proof fn lemma_mode_tokens_canonical(t: Seq<char>)
    requires
        t == digitalvoice_token() || t == mfsk_token(),
    ensures
        mode_canonical(t),
{
    let syn = synonym_table();
    let can = canonical_table();
    assert forall|k: int| 0 <= k < t.len() implies !(97 <= (#[trigger] t[k]) as u32 <= 122) by {
        assert(65 <= t[k] as u32 <= 90);
    }
    assert forall|j: int| 0 <= j < syn.len() implies token_free(t, (#[trigger] syn[j]).0) by {
        let pat = syn[j].0;
        assert forall|i: int| 0 <= i <= t.len() - pat.len() implies #[trigger] t.subrange(
            i,
            i + pat.len(),
        ) != pat by {
            if t.subrange(i, i + pat.len()) == pat {
                assert(t[i] == pat[0] && t[i + 1] == pat[1]);
            }
        }
    }
    assert forall|j: int| 0 <= j < can.len() implies token_free(t, (#[trigger] can[j]).0) by {
        let pat = can[j].0;
        assert forall|i: int| 0 <= i <= t.len() - pat.len() implies #[trigger] t.subrange(
            i,
            i + pat.len(),
        ) != pat by {
            if t.subrange(i, i + pat.len()) == pat {
                assert(t[i] == pat[0] && t[i + 1] == pat[1]);
            }
        }
    }
}

/// Normalization is idempotent on every input whose normal form is
/// canonical: applying it twice yields the same result as applying it
/// once.  In particular the canonical ADIF family tokens themselves are
/// fixed points.
pub proof fn lemma_normalize_mode_idempotent(s: Seq<char>)
    requires
        s == digitalvoice_token() || s == mfsk_token() || mode_canonical(normalize_mode_spec(s)),
    ensures
        mode_canonical(normalize_mode_spec(s)) ==> normalize_mode_spec(normalize_mode_spec(s))
            == normalize_mode_spec(s),
        (s == digitalvoice_token() || s == mfsk_token()) ==> normalize_mode_spec(s) == s
            && normalize_mode_spec(normalize_mode_spec(s)) == normalize_mode_spec(s),
{
    if s == digitalvoice_token() || s == mfsk_token() {
        lemma_mode_tokens_canonical(s);
        lemma_normalize_mode_fixed_on_canonical(s);
    }
    if mode_canonical(normalize_mode_spec(s)) {
        lemma_normalize_mode_fixed_on_canonical(normalize_mode_spec(s));
    }
}

} // verus!
