//! Line splitting, case-insensitive substring search, and preview trimming.
//!
//! Lines are split at line feeds; a carriage return directly before a line
//! feed is not part of the line, and a trailing unterminated line still
//! counts. A line is a hit for a search term when the lowercased line
//! contains the lowercased term as a contiguous subsequence; lowercasing is
//! the standard library's, named here by the uninterpreted `lower_of`.

use vstd::prelude::*;
use crate::tokenizer::views_of;

verus! {

pub const LINE_FEED: u8 = 10;

pub const CARRIAGE_RETURN: u8 = 13;

/// The default number of characters a preview line is cut down to.
pub const PREVIEW_WIDTH: usize = 120;

pub const CONT_MIN: u8 = 128;

pub const CONT_MAX: u8 = 191;

/// The UTF-8 bytes of the ellipsis mark appended to a cut preview.
pub open spec fn ellipsis() -> Seq<u8> {
    seq![226u8, 128u8, 166u8]
}

/// A carriage return at the very end of a line (left by a CR-LF line
/// ending) is not part of the line.
pub open spec fn strip_cr(l: Seq<u8>) -> Seq<u8> {
    if l.len() > 0 && l.last() == CARRIAGE_RETURN {
        l.drop_last()
    } else {
        l
    }
}

/// The lines of `s` given a partially accumulated current line `cur`:
/// a line feed closes the current line (dropping a CR left before it);
/// a trailing unterminated line still counts; an empty tail does not.
pub open spec fn lines_acc(s: Seq<u8>, cur: Seq<u8>) -> Seq<Seq<u8>>
    decreases s.len(),
{
    if s.len() == 0 {
        if cur.len() == 0 {
            seq![]
        } else {
            seq![cur]
        }
    } else if s[0] == LINE_FEED {
        seq![strip_cr(cur)] + lines_acc(s.drop_first(), seq![])
    } else {
        lines_acc(s.drop_first(), cur.push(s[0]))
    }
}

/// The lines of `s`, in order.
pub open spec fn lines_of(s: Seq<u8>) -> Seq<Seq<u8>> {
    lines_acc(s, seq![])
}

/// `n` occurs in `h` as a contiguous subsequence.
pub open spec fn contains_seq(h: Seq<u8>, n: Seq<u8>) -> bool {
    exists|i: int| 0 <= i && i + n.len() <= h.len() && #[trigger] h.subrange(i, i + n.len()) == n
}

/// The UTF-8 bytes of the lowercase form of a byte string: what the
/// standard library's `to_lowercase` returns for the decoded text. It is a
/// pure function of the bytes; only `lowercase_bytes` exhibits its values.
pub uninterp spec fn lower_of(s: Seq<u8>) -> Seq<u8>;

/// A line is a hit for a term when the lowercased line contains the
/// lowercased term.
pub open spec fn is_hit(line: Seq<u8>, needle: Seq<u8>) -> bool {
    contains_seq(lower_of(line), lower_of(needle))
}

/// How many of the lines are hits for `needle`.
pub open spec fn count_hits(ls: Seq<Seq<u8>>, needle: Seq<u8>) -> nat
    decreases ls.len(),
{
    if ls.len() == 0 {
        0
    } else {
        (if is_hit(ls[0], needle) {
            1nat
        } else {
            0nat
        }) + count_hits(ls.drop_first(), needle)
    }
}

/// A UTF-8 continuation byte: part of the character begun by the nearest
/// earlier non-continuation byte.
pub open spec fn is_cont_byte(b: u8) -> bool {
    CONT_MIN <= b && b <= CONT_MAX
}

/// How many characters a byte string holds: one per byte that starts a
/// character (for valid UTF-8, exactly the character count).
pub open spec fn char_count(s: Seq<u8>) -> nat
    decreases s.len(),
{
    if s.len() == 0 {
        0
    } else {
        (if is_cont_byte(s[0]) {
            0nat
        } else {
            1nat
        }) + char_count(s.drop_first())
    }
}

/// The bytes of the first `k` characters of `s`: each character-starting
/// byte spends one of the `k`, continuation bytes ride along with their
/// character, and the cut falls before the start of character `k + 1` —
/// never inside a character.
pub open spec fn take_chars(s: Seq<u8>, k: nat) -> Seq<u8>
    decreases s.len(),
{
    if s.len() == 0 {
        seq![]
    } else if is_cont_byte(s[0]) {
        seq![s[0]] + take_chars(s.drop_first(), k)
    } else if k == 0 {
        seq![]
    } else {
        seq![s[0]] + take_chars(s.drop_first(), (k - 1) as nat)
    }
}

/// A preview keeps a line of up to `max` characters whole; a longer line
/// is cut to its first `max` characters, with an ellipsis mark appended.
pub open spec fn trim_spec(s: Seq<u8>, max: nat) -> Seq<u8> {
    if char_count(s) <= max {
        s
    } else {
        take_chars(s, max) + ellipsis()
    }
}

/// An exact copy of a byte slice as an owned vector.
pub fn copy_bytes(s: &[u8]) -> (r: Vec<u8>)
    ensures
        r@ == s@,
{
    let mut r: Vec<u8> = Vec::new();
    let mut i: usize = 0;
    while i < s.len()
        invariant
            0 <= i <= s@.len(),
            r@.len() == i,
            forall|j: int| 0 <= j < i ==> r@[j] == s@[j],
        decreases s@.len() - i,
    {
        r.push(s[i]);
        i = i + 1;
    }
    proof {
        assert(r@ =~= s@);
    }
    r
}

/// Lowercase a byte string. Relies on str::to_lowercase of the standard
/// library, applied to the lossily decoded bytes: the result depends on
/// the bytes alone, and is named `lower_of`.
#[verifier::external_body]
pub fn lowercase_bytes(s: &[u8]) -> (r: Vec<u8>)
    ensures
        r@ == lower_of(s@),
        s@.len() == 0 ==> r@.len() == 0,
{
    String::from_utf8_lossy(s).to_lowercase().into_bytes()
}

/// Split `content` into its lines.
pub fn split_lines(content: &[u8]) -> (out: Vec<Vec<u8>>)
    ensures
        views_of(out@) == lines_of(content@),
{
    let mut out: Vec<Vec<u8>> = Vec::new();
    let mut cur: Vec<u8> = Vec::new();
    let mut i: usize = 0;

    proof {
        assert(content@.skip(0) =~= content@);
        assert(views_of(out@) + lines_acc(content@.skip(0), cur@) =~= lines_of(content@));
    }

    while i < content.len()
        invariant
            0 <= i <= content@.len(),
            views_of(out@) + lines_acc(content@.skip(i as int), cur@) =~= lines_of(content@),
        decreases content@.len() - i,
    {
        let b = content[i];
        proof {
            assert(content@.skip(i as int)[0] == content@[i as int]);
            assert(content@.skip(i as int).drop_first() =~= content@.skip(i as int + 1));
        }
        if b == LINE_FEED {
            let ghost old_out = out@;
            let ghost closed = cur@;
            if cur.len() > 0 && cur[cur.len() - 1] == CARRIAGE_RETURN {
                cur.pop();
            }
            proof {
                assert(cur@ =~= strip_cr(closed));
            }
            out.push(cur);
            cur = Vec::new();
            proof {
                assert(cur@ =~= Seq::<u8>::empty());
                assert(lines_acc(content@.skip(i as int), closed) == seq![strip_cr(closed)]
                    + lines_acc(content@.skip(i as int + 1), cur@));
                assert(views_of(out@) =~= views_of(old_out).push(strip_cr(closed)));
                assert(views_of(out@) + lines_acc(content@.skip(i as int + 1), cur@) =~= (views_of(
                    old_out,
                ) + lines_acc(content@.skip(i as int), closed)));
            }
        } else {
            let ghost prev_cur = cur@;
            cur.push(b);
            proof {
                assert(lines_acc(content@.skip(i as int), prev_cur) == lines_acc(
                    content@.skip(i as int + 1),
                    cur@,
                ));
            }
        }
        i = i + 1;
    }

    proof {
        assert(content@.skip(content@.len() as int) =~= Seq::<u8>::empty());
    }
    if cur.len() > 0 {
        let ghost old_out = out@;
        let ghost closed = cur@;
        out.push(cur);
        proof {
            assert(views_of(out@) =~= views_of(old_out).push(closed));
            assert(views_of(out@) =~= views_of(old_out) + seq![closed]);
        }
    }
    out
}

/// Whether the lowercased line contains `needle_lower` (a term that is
/// already lowercased) as a contiguous subsequence.
pub fn line_matches(line: &[u8], needle_lower: &[u8]) -> (r: bool)
    ensures
        r == contains_seq(lower_of(line@), needle_lower@),
{
    let folded = lowercase_bytes(line);
    contains_sub(&folded, needle_lower)
}

/// Whether `n` occurs in `h` as a contiguous run of bytes.
pub fn contains_sub(h: &Vec<u8>, n: &[u8]) -> (r: bool)
    ensures
        r == contains_seq(h@, n@),
{
    if n.len() > h.len() {
        proof {
            assert(!contains_seq(h@, n@));
        }
        return false;
    }
    if n.len() == 0 {
        proof {
            assert(h@.subrange(0, 0 + n@.len() as int) =~= n@);
        }
        return true;
    }
    let mut i: usize = 0;
    while i <= h.len() - n.len()
        invariant
            1 <= n@.len() <= h@.len(),
            h@.len() <= usize::MAX,
            0 <= i <= h@.len() - n@.len() + 1,
            forall|k: int| 0 <= k < i ==> #[trigger] h@.subrange(k, k + n@.len()) != n@,
        decreases h@.len() - n@.len() + 1 - i,
    {
        let mut j: usize = 0;
        let mut matches_here = true;
        while j < n.len()
            invariant
                1 <= n@.len() <= h@.len(),
                h@.len() <= usize::MAX,
                0 <= i <= h@.len() - n@.len(),
                0 <= j <= n@.len(),
                matches_here ==> forall|l: int| 0 <= l < j ==> h@[i + l] == n@[l],
                !matches_here ==> h@.subrange(i as int, i + n@.len()) != n@,
            decreases n@.len() - j,
        {
            if h[i + j] != n[j] {
                proof {
                    assert(h@.subrange(i as int, i + n@.len())[j as int] != n@[j as int]);
                }
                matches_here = false;
                j = n.len();
            } else {
                j = j + 1;
            }
        }
        if matches_here {
            proof {
                assert(h@.subrange(i as int, i + n@.len()) =~= n@);
            }
            return true;
        }
        i = i + 1;
    }
    proof {
        assert(forall|k: int| 0 <= k && k + n@.len() <= h@.len() ==> #[trigger] h@.subrange(
            k,
            k + n@.len(),
        ) != n@);
    }
    false
}

/// Whether `b` is a UTF-8 continuation byte.
pub fn is_continuation(b: u8) -> (r: bool)
    ensures
        r == is_cont_byte(b),
{
    CONT_MIN <= b && b <= CONT_MAX
}

/// Cut a long line down for a search preview: a line of up to `max`
/// characters stands unchanged; a longer one keeps its first `max`
/// characters, whole, with an ellipsis mark appended.
pub fn trim_preview(s: &[u8], max: usize) -> (r: Vec<u8>)
    ensures
        r@ == trim_spec(s@, max as nat),
{
    let mut chars: usize = 0;
    let mut i: usize = 0;
    proof {
        assert(s@.skip(0) =~= s@);
    }
    while i < s.len()
        invariant
            0 <= i <= s@.len(),
            chars <= i,
            char_count(s@) == chars + char_count(s@.skip(i as int)),
        decreases s@.len() - i,
    {
        proof {
            assert(s@.skip(i as int)[0] == s@[i as int]);
            assert(s@.skip(i as int).drop_first() =~= s@.skip(i as int + 1));
        }
        if !is_continuation(s[i]) {
            chars = chars + 1;
        }
        i = i + 1;
    }
    proof {
        assert(s@.skip(s@.len() as int) =~= Seq::<u8>::empty());
        assert(chars == char_count(s@));
    }
    if chars <= max {
        return copy_bytes(s);
    }

    let mut r: Vec<u8> = Vec::new();
    let mut seen: usize = 0;
    let mut stopped = false;
    let mut j: usize = 0;
    proof {
        assert(s@.skip(0) =~= s@);
    }
    while j < s.len()
        invariant
            0 <= j <= s@.len(),
            seen <= max,
            !stopped ==> r@ + take_chars(s@.skip(j as int), (max - seen) as nat) == take_chars(
                s@,
                max as nat,
            ),
            stopped ==> r@ == take_chars(s@, max as nat),
        decreases s@.len() - j,
    {
        proof {
            assert(s@.skip(j as int)[0] == s@[j as int]);
            assert(s@.skip(j as int).drop_first() =~= s@.skip(j as int + 1));
        }
        let b = s[j];
        if !stopped {
            let ghost before = r@;
            if is_continuation(b) {
                r.push(b);
                proof {
                    assert(take_chars(s@.skip(j as int), (max - seen) as nat) == seq![b]
                        + take_chars(s@.skip(j as int + 1), (max - seen) as nat));
                    assert(r@ + take_chars(s@.skip(j as int + 1), (max - seen) as nat) =~= (before
                        + take_chars(s@.skip(j as int), (max - seen) as nat)));
                }
            } else if seen < max {
                seen = seen + 1;
                r.push(b);
                proof {
                    assert(take_chars(s@.skip(j as int), (max - (seen - 1)) as nat) == seq![b]
                        + take_chars(s@.skip(j as int + 1), (max - seen) as nat));
                    assert(r@ + take_chars(s@.skip(j as int + 1), (max - seen) as nat) =~= (before
                        + take_chars(s@.skip(j as int), (max - (seen - 1)) as nat)));
                }
            } else {
                stopped = true;
                proof {
                    assert(take_chars(s@.skip(j as int), 0nat) =~= Seq::<u8>::empty());
                    assert(r@ =~= r@ + take_chars(s@.skip(j as int), (max - seen) as nat));
                }
            }
        }
        j = j + 1;
    }
    proof {
        if !stopped {
            assert(s@.skip(s@.len() as int) =~= Seq::<u8>::empty());
            assert(take_chars(s@.skip(s@.len() as int), (max - seen) as nat) =~= Seq::<
                u8,
            >::empty());
            assert(r@ =~= r@ + take_chars(s@.skip(s@.len() as int), (max - seen) as nat));
        }
        assert(r@ == take_chars(s@, max as nat));
    }
    r.push(226);
    r.push(128);
    r.push(166);
    proof {
        assert(r@ =~= take_chars(s@, max as nat) + ellipsis());
    }
    r
}

/// There are never more lines than input bytes.
pub proof fn lemma_lines_len_le(s: Seq<u8>)
    ensures
        lines_of(s).len() <= s.len(),
{
    lemma_lines_acc_len(s, seq![]);
}

proof fn lemma_lines_acc_len(s: Seq<u8>, cur: Seq<u8>)
    ensures
        cur.len() == 0 ==> lines_acc(s, cur).len() <= s.len(),
        cur.len() > 0 ==> lines_acc(s, cur).len() <= s.len() + 1,
    decreases s.len(),
{
    if s.len() == 0 {
    } else if s[0] == LINE_FEED {
        lemma_lines_acc_len(s.drop_first(), seq![]);
    } else {
        lemma_lines_acc_len(s.drop_first(), cur.push(s[0]));
    }
}

/// Counting hits line by line: one more line adds one more hit when it
/// matches and none when it does not.
pub proof fn lemma_count_hits_push(ls: Seq<Seq<u8>>, l: Seq<u8>, needle: Seq<u8>)
    ensures
        count_hits(ls.push(l), needle) == count_hits(ls, needle) + (if is_hit(l, needle) {
            1nat
        } else {
            0nat
        }),
    decreases ls.len(),
{
    if ls.len() == 0 {
        assert(ls.push(l).drop_first() =~= ls);
        assert(ls.push(l)[0] == l);
        assert(count_hits(ls.push(l), needle) == (if is_hit(l, needle) {
            1nat
        } else {
            0nat
        }) + count_hits(ls, needle));
    } else {
        assert(ls.push(l).drop_first() =~= ls.drop_first().push(l));
        assert(ls.push(l)[0] == ls[0]);
        lemma_count_hits_push(ls.drop_first(), l, needle);
        assert(count_hits(ls.push(l), needle) == (if is_hit(ls[0], needle) {
            1nat
        } else {
            0nat
        }) + count_hits(ls.drop_first().push(l), needle));
        assert(count_hits(ls, needle) == (if is_hit(ls[0], needle) {
            1nat
        } else {
            0nat
        }) + count_hits(ls.drop_first(), needle));
    }
}

} // verus!
