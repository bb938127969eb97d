//! Tokenization of raw text into lowercase words.
//!
//! A word byte is an ASCII letter, digit or underscore; every other byte is a
//! separator. A token is a maximal run of word bytes, ASCII-lowercased.

use vstd::prelude::*;

verus! {

pub const UPPER_A: u8 = 65;

pub const UPPER_Z: u8 = 90;

pub const LOWER_A: u8 = 97;

pub const LOWER_Z: u8 = 122;

pub const DIGIT_0: u8 = 48;

pub const DIGIT_9: u8 = 57;

pub const UNDERSCORE: u8 = 95;

pub const CASE_GAP: u8 = 32;

/// A word byte: ASCII letter (either case), ASCII digit, or underscore.
pub open spec fn is_word_byte(b: u8) -> bool {
    (UPPER_A <= b && b <= UPPER_Z) || (LOWER_A <= b && b <= LOWER_Z) || (DIGIT_0 <= b && b <= DIGIT_9) || b == UNDERSCORE
}

/// ASCII case-fold of one byte: uppercase letters map to lowercase,
/// everything else is unchanged.
pub open spec fn fold_byte(b: u8) -> u8 {
    if UPPER_A <= b && b <= UPPER_Z {
        (b + CASE_GAP) as u8
    } else {
        b
    }
}

/// ASCII case-fold of a byte sequence.
pub open spec fn fold_seq(s: Seq<u8>) -> Seq<u8> {
    s.map_values(|b: u8| fold_byte(b))
}

/// A well-formed token: non-empty, and every byte a word byte that is
/// already folded (so no uppercase letter occurs).
pub open spec fn wf_token(t: Seq<u8>) -> bool {
    &&& t.len() > 0
    &&& forall|j: int| 0 <= j < t.len() ==> is_word_byte(#[trigger] t[j]) && fold_byte(t[j]) == t[j]
}

/// The tokens of `s` given a partially accumulated current token `cur`:
/// word bytes extend `cur` (folded); a separator closes `cur` if non-empty.
pub open spec fn tokens_acc(s: Seq<u8>, cur: Seq<u8>) -> Seq<Seq<u8>>
    decreases s.len(),
{
    if s.len() == 0 {
        if cur.len() == 0 {
            seq![]
        } else {
            seq![cur]
        }
    } else if is_word_byte(s[0]) {
        tokens_acc(s.drop_first(), cur.push(fold_byte(s[0])))
    } else if cur.len() == 0 {
        tokens_acc(s.drop_first(), seq![])
    } else {
        seq![cur] + tokens_acc(s.drop_first(), seq![])
    }
}

/// The sequence of tokens of `s`: the maximal runs of word bytes, each
/// ASCII-lowercased, in order of appearance.
pub open spec fn tokens_of(s: Seq<u8>) -> Seq<Seq<u8>> {
    tokens_acc(s, seq![])
}

/// The views of a sequence of byte vectors.
pub open spec fn views_of(s: Seq<Vec<u8>>) -> Seq<Seq<u8>> {
    s.map_values(|v: Vec<u8>| v@)
}

/// Whether `b` is a word byte (ASCII letter, digit or underscore).
pub fn is_word_char(b: u8) -> (r: bool)
    ensures
        r == is_word_byte(b),
{
    (UPPER_A <= b && b <= UPPER_Z) || (LOWER_A <= b && b <= LOWER_Z) || (DIGIT_0 <= b && b <= DIGIT_9) || b == UNDERSCORE
}

/// ASCII-lowercase one byte.
pub fn fold_char(b: u8) -> (r: u8)
    ensures
        r == fold_byte(b),
{
    if UPPER_A <= b && b <= UPPER_Z {
        b + CASE_GAP
    } else {
        b
    }
}

/// Split `text` into its lowercase words: each maximal run of ASCII
/// letters, digits and underscores becomes one token, case-folded.
pub fn tokenize_words(text: &[u8]) -> (out: Vec<Vec<u8>>)
    ensures
        views_of(out@) == tokens_of(text@),
{
    let mut out: Vec<Vec<u8>> = Vec::new();
    let mut cur: Vec<u8> = Vec::new();
    let mut i: usize = 0;

    proof {
        assert(text@.skip(0) =~= text@);
        assert(views_of(out@) + tokens_acc(text@.skip(0), cur@) =~= tokens_of(text@));
    }

    while i < text.len()
        invariant
            0 <= i <= text@.len(),
            views_of(out@) + tokens_acc(text@.skip(i as int), cur@) =~= tokens_of(text@),
        decreases text@.len() - i,
    {
        let b = text[i];
        proof {
            assert(text@.skip(i as int)[0] == text@[i as int]);
            assert(text@.skip(i as int).drop_first() =~= text@.skip(i as int + 1));
        }
        if is_word_char(b) {
            let ghost prev_cur = cur@;
            cur.push(fold_char(b));
            proof {
                assert(tokens_acc(text@.skip(i as int), prev_cur) == tokens_acc(
                    text@.skip(i as int + 1),
                    cur@,
                ));
            }
        } else {
            let ghost old_out = out@;
            let ghost closed = cur@;
            if cur.len() > 0 {
                out.push(cur);
                cur = Vec::new();
            }
            proof {
                assert(cur@ =~= Seq::<u8>::empty());
                if closed.len() == 0 {
                    assert(tokens_acc(text@.skip(i as int), closed) == tokens_acc(
                        text@.skip(i as int + 1),
                        cur@,
                    ));
                } else {
                    assert(tokens_acc(text@.skip(i as int), closed) == seq![closed] + tokens_acc(
                        text@.skip(i as int + 1),
                        cur@,
                    ));
                    assert(views_of(out@) =~= views_of(old_out).push(closed));
                    assert(views_of(out@) + tokens_acc(text@.skip(i as int + 1), cur@) =~= (
                    views_of(old_out) + tokens_acc(text@.skip(i as int), closed)));
                }
            }
        }
        i = i + 1;
    }

    proof {
        assert(text@.skip(text@.len() as int) =~= Seq::<u8>::empty());
    }
    if cur.len() > 0 {
        let ghost old_out = out@;
        let ghost closed = cur@;
        out.push(cur);
        proof {
            assert(views_of(old_out.push(out@[old_out.len() as int])) =~= views_of(old_out).push(
                closed,
            ));
            assert(views_of(out@) =~= views_of(old_out) + seq![closed]);
        }
    }
    out
}

/// Every token the tokenizer can emit is well formed: non-empty and made
/// only of lowercase word bytes (letters, digits, underscore).
pub proof fn lemma_tokens_wf(s: Seq<u8>)
    ensures
        forall|i: int| 0 <= i < tokens_of(s).len() ==> wf_token(#[trigger] tokens_of(s)[i]),
{
    lemma_tokens_acc_wf(s, seq![]);
}

proof fn lemma_tokens_acc_wf(s: Seq<u8>, cur: Seq<u8>)
    requires
        forall|j: int| 0 <= j < cur.len() ==> is_word_byte(#[trigger] cur[j]) && fold_byte(cur[j])
            == cur[j],
    ensures
        forall|i: int| 0 <= i < tokens_acc(s, cur).len() ==> wf_token(
            #[trigger] tokens_acc(s, cur)[i],
        ),
    decreases s.len(),
{
    if s.len() == 0 {
        if cur.len() > 0 {
            assert(tokens_acc(s, cur) == seq![cur]);
            assert(wf_token(tokens_acc(s, cur)[0]));
        }
    } else if is_word_byte(s[0]) {
        let pushed = cur.push(fold_byte(s[0]));
        assert(is_word_byte(fold_byte(s[0])) && fold_byte(fold_byte(s[0])) == fold_byte(s[0]));
        assert(forall|j: int|
            0 <= j < pushed.len() ==> is_word_byte(#[trigger] pushed[j]) && fold_byte(pushed[j])
                == pushed[j]);
        lemma_tokens_acc_wf(s.drop_first(), pushed);
        assert(tokens_acc(s, cur) == tokens_acc(s.drop_first(), pushed));
        assert forall|i: int| 0 <= i < tokens_acc(s, cur).len() implies wf_token(
            #[trigger] tokens_acc(s, cur)[i],
        ) by {
            assert(tokens_acc(s, cur)[i] == tokens_acc(s.drop_first(), pushed)[i]);
            assert(wf_token(tokens_acc(s.drop_first(), pushed)[i]));
        }
    } else if cur.len() == 0 {
        lemma_tokens_acc_wf(s.drop_first(), seq![]);
        assert(tokens_acc(s, cur) == tokens_acc(s.drop_first(), seq![]));
        assert forall|i: int| 0 <= i < tokens_acc(s, cur).len() implies wf_token(
            #[trigger] tokens_acc(s, cur)[i],
        ) by {
            assert(tokens_acc(s, cur)[i] == tokens_acc(s.drop_first(), seq![])[i]);
            assert(wf_token(tokens_acc(s.drop_first(), seq![])[i]));
        }
    } else {
        lemma_tokens_acc_wf(s.drop_first(), seq![]);
        assert(wf_token(cur));
        assert(tokens_acc(s, cur) == seq![cur] + tokens_acc(s.drop_first(), seq![]));
        assert forall|i: int| 0 <= i < tokens_acc(s, cur).len() implies wf_token(
            #[trigger] tokens_acc(s, cur)[i],
        ) by {
            if i == 0 {
                assert(tokens_acc(s, cur)[0] == cur);
            } else {
                assert(tokens_acc(s, cur)[i] == tokens_acc(s.drop_first(), seq![])[i - 1]);
                assert(wf_token(tokens_acc(s.drop_first(), seq![])[i - 1]));
            }
        }
    }
}

/// Tokenization is invariant under ASCII case-folding of the input:
/// folding the text first yields exactly the same tokens.
pub proof fn lemma_tokens_fold_invariant(s: Seq<u8>)
    ensures
        tokens_of(fold_seq(s)) == tokens_of(s),
{
    lemma_tokens_acc_fold(s, seq![]);
    assert(tokens_of(fold_seq(s)) =~= tokens_of(s));
}

proof fn lemma_tokens_acc_fold(s: Seq<u8>, cur: Seq<u8>)
    ensures
        tokens_acc(fold_seq(s), cur) == tokens_acc(s, cur),
    decreases s.len(),
{
    if s.len() == 0 {
        assert(fold_seq(s) =~= Seq::<u8>::empty());
    } else {
        assert(fold_seq(s)[0] == fold_byte(s[0]));
        assert(fold_seq(s).drop_first() =~= fold_seq(s.drop_first()));
        if is_word_byte(s[0]) {
            assert(is_word_byte(fold_byte(s[0])));
            assert(fold_byte(fold_byte(s[0])) == fold_byte(s[0]));
            lemma_tokens_acc_fold(s.drop_first(), cur.push(fold_byte(s[0])));
        } else {
            assert(!is_word_byte(fold_byte(s[0])));
            lemma_tokens_acc_fold(s.drop_first(), seq![]);
        }
    }
}

/// A separator splits tokenization: the tokens of `a`, then a separator,
/// then `b` are exactly the tokens of `a` followed by the tokens of `b`.
/// So discarding separators loses no word and invents none.
pub proof fn lemma_tokens_sep_split(a: Seq<u8>, c: u8, b: Seq<u8>)
    requires
        !is_word_byte(c),
    ensures
        tokens_of(a + seq![c] + b) == tokens_of(a) + tokens_of(b),
{
    assert(a + seq![c] + b =~= a + (seq![c] + b));
    lemma_tokens_acc_sep_split(a, c, b, seq![]);
    assert(tokens_of(a) + tokens_of(b) =~= tokens_acc(a, seq![]) + tokens_of(b));
}

proof fn lemma_tokens_acc_sep_split(a: Seq<u8>, c: u8, b: Seq<u8>, cur: Seq<u8>)
    requires
        !is_word_byte(c),
    ensures
        tokens_acc(a + (seq![c] + b), cur) == tokens_acc(a, cur) + tokens_of(b),
    decreases a.len(),
{
    let m = seq![c] + b;
    if a.len() == 0 {
        assert(a + m =~= m);
        assert(m[0] == c);
        assert(m.drop_first() =~= b);
        if cur.len() == 0 {
            assert(tokens_acc(m, cur) == tokens_acc(b, seq![]));
            assert(tokens_acc(a, cur) + tokens_of(b) =~= tokens_of(b));
        } else {
            assert(tokens_acc(m, cur) == seq![cur] + tokens_acc(b, seq![]));
            assert(tokens_acc(a, cur) =~= seq![cur]);
        }
    } else {
        assert((a + m)[0] == a[0]);
        assert((a + m).drop_first() =~= a.drop_first() + m);
        if is_word_byte(a[0]) {
            lemma_tokens_acc_sep_split(a.drop_first(), c, b, cur.push(fold_byte(a[0])));
        } else if cur.len() == 0 {
            lemma_tokens_acc_sep_split(a.drop_first(), c, b, seq![]);
        } else {
            lemma_tokens_acc_sep_split(a.drop_first(), c, b, seq![]);
            assert(tokens_acc(a + m, cur) =~= tokens_acc(a, cur) + tokens_of(b));
        }
    }
}

/// Text made only of word bytes is one single token: itself, case-folded.
pub proof fn lemma_tokens_single_word(s: Seq<u8>)
    requires
        s.len() > 0,
        forall|j: int| 0 <= j < s.len() ==> is_word_byte(#[trigger] s[j]),
    ensures
        tokens_of(s) == seq![fold_seq(s)],
{
    lemma_tokens_acc_all_word(s, seq![]);
    assert(Seq::<u8>::empty() + fold_seq(s) =~= fold_seq(s));
}

proof fn lemma_tokens_acc_all_word(s: Seq<u8>, cur: Seq<u8>)
    requires
        cur.len() + s.len() > 0,
        forall|j: int| 0 <= j < s.len() ==> is_word_byte(#[trigger] s[j]),
    ensures
        tokens_acc(s, cur) == seq![cur + fold_seq(s)],
    decreases s.len(),
{
    if s.len() == 0 {
        assert(fold_seq(s) =~= Seq::<u8>::empty());
        assert(cur + fold_seq(s) =~= cur);
    } else {
        lemma_tokens_acc_all_word(s.drop_first(), cur.push(fold_byte(s[0])));
        assert(fold_seq(s).drop_first() =~= fold_seq(s.drop_first()));
        assert(cur.push(fold_byte(s[0])) + fold_seq(s.drop_first()) =~= cur + fold_seq(s));
    }
}

/// There are never more tokens than input bytes.
pub proof fn lemma_tokens_len_le(s: Seq<u8>)
    ensures
        tokens_of(s).len() <= s.len(),
{
    lemma_tokens_acc_len(s, seq![]);
}

proof fn lemma_tokens_acc_len(s: Seq<u8>, cur: Seq<u8>)
    ensures
        cur.len() == 0 ==> tokens_acc(s, cur).len() <= s.len(),
        cur.len() > 0 ==> tokens_acc(s, cur).len() <= s.len() + 1,
    decreases s.len(),
{
    if s.len() == 0 {
    } else if is_word_byte(s[0]) {
        lemma_tokens_acc_len(s.drop_first(), cur.push(fold_byte(s[0])));
    } else {
        lemma_tokens_acc_len(s.drop_first(), seq![]);
    }
}

} // verus!
