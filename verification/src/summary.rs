//! Rendering helpers with verifiable content: the one-line summary shown
//! for a text clip (the first non-blank line, trimmed, cut to a fixed
//! width with an ellipsis) and the size label shown for an image clip.

use vstd::prelude::*;

use crate::ingest::{char_is_whitespace, trim_end_spec, trim_spec, trim_start_spec};

verus! {

/// Widest a summary line may be, in characters.
pub const MAX_SUMMARY_CHARS: usize = 25;

/// Index of the first line break, or -1 when there is none.
pub open spec fn find_newline(s: Seq<char>) -> int
    decreases s.len(),
{
    if s.len() == 0 {
        -1
    } else if s[0] == '\n' {
        0
    } else {
        let r = find_newline(s.drop_first());
        if r == -1 {
            -1
        } else {
            r + 1
        }
    }
}

/// A scan that saw no line break before `i`, and a break (or the end) at
/// `i`, fixes the value of `find_newline`.
pub proof fn lemma_find_newline_at(s: Seq<char>, i: int)
    requires
        0 <= i <= s.len(),
        forall|j: int| 0 <= j < i ==> s[j] != '\n',
        i == s.len() || s[i] == '\n',
    ensures
        find_newline(s) == if i == s.len() {
            -1int
        } else {
            i
        },
    decreases s.len(),
{
    if s.len() == 0 {
    } else if i == 0 {
        if s[0] != '\n' {
            let t = s.drop_first();
            assert(forall|j: int| 0 <= j < t.len() ==> t[j] == s[j + 1]);
            lemma_find_newline_at(t, 0);
        }
    } else {
        let t = s.drop_first();
        assert(forall|j: int| 0 <= j < t.len() ==> t[j] == s[j + 1]);
        lemma_find_newline_at(t, i - 1);
    }
}

/// The first line whose trimmed text is non-empty, trimmed; empty when
/// every line is blank.
pub open spec fn first_nonblank_line(s: Seq<char>) -> Seq<char>
    decreases s.len(),
{
    let n = find_newline(s);
    if !(0 <= n < s.len()) {
        trim_spec(s)
    } else {
        let t = trim_spec(s.take(n));
        if t.len() > 0 {
            t
        } else {
            first_nonblank_line(s.skip(n + 1))
        }
    }
}

/// The summary shown for a text clip: its first non-blank line, trimmed at
/// both ends, and cut to the width limit with a trailing ellipsis when it
/// is longer.
pub open spec fn summarize_spec(s: Seq<char>) -> Seq<char> {
    let line = first_nonblank_line(s);
    if line.len() > MAX_SUMMARY_CHARS {
        line.take(MAX_SUMMARY_CHARS - 1).push('\u{2026}')
    } else {
        line
    }
}

/// Produce the one-line summary of a text clip.
#[verifier::rlimit(100)]
pub fn summarize_one_line(text: &str) -> (r: String)
    ensures
        r@ == summarize_spec(text@),
{
    let ghost s = text@;
    let n = text.unicode_len();
    let mut start: usize = 0;
    proof {
        assert(s.skip(0) =~= s);
    }
    loop
        invariant
            start <= n,
            n == s.len(),
            s == text@,
            first_nonblank_line(s) == first_nonblank_line(s.skip(start as int)),
        decreases n - start,
    {
        let ghost rest = s.skip(start as int);
        let mut end: usize = start;
        while end < n && text.get_char(end) != '\n'
            invariant
                start <= end <= n,
                n == s.len(),
                s == text@,
                forall|j: int| start <= j < end ==> s[j] != '\n',
            decreases n - end,
        {
            end = end + 1;
        }
        proof {
            assert(forall|j: int| 0 <= j < rest.len() ==> rest[j] == s[start + j]);
            lemma_find_newline_at(rest, end - start as int);
        }
        let mut lo: usize = start;
        while lo < end && char_is_whitespace(text.get_char(lo))
            invariant
                start <= lo <= end <= n,
                n == s.len(),
                s == text@,
                trim_start_spec(s.subrange(start as int, end as int)) == trim_start_spec(
                    s.subrange(lo as int, end as int),
                ),
            decreases end - lo,
        {
            proof {
                let sub = s.subrange(lo as int, end as int);
                assert(sub[0] == s[lo as int]);
                assert(sub.drop_first() =~= s.subrange(lo as int + 1, end as int));
            }
            lo = lo + 1;
        }
        proof {
            let sub = s.subrange(lo as int, end as int);
            if lo == end {
                assert(sub =~= Seq::<char>::empty());
            }
            assert(trim_start_spec(s.subrange(start as int, end as int)) == sub);
        }
        let mut hi: usize = end;
        while hi > lo && char_is_whitespace(text.get_char(hi - 1))
            invariant
                start <= lo <= hi <= end <= n,
                n == s.len(),
                s == text@,
                trim_spec(s.subrange(start as int, end as int)) == trim_end_spec(
                    s.subrange(lo as int, hi as int),
                ),
            decreases hi,
        {
            proof {
                let sub = s.subrange(lo as int, hi as int);
                assert(sub.last() == s[hi - 1]);
                assert(sub.drop_last() =~= s.subrange(lo as int, hi as int - 1));
            }
            hi = hi - 1;
        }
        proof {
            let sub = s.subrange(lo as int, hi as int);
            if hi > lo {
                assert(sub.last() == s[hi - 1]);
            } else {
                assert(sub =~= Seq::<char>::empty());
            }
            assert(trim_spec(s.subrange(start as int, end as int)) == sub);
            if end < n {
                assert(rest.take(end - start as int) =~= s.subrange(start as int, end as int));
            } else {
                assert(rest =~= s.subrange(start as int, end as int));
            }
        }
        if lo < hi {
            proof {
                assert(first_nonblank_line(rest) == s.subrange(lo as int, hi as int));
            }
            if hi - lo > MAX_SUMMARY_CHARS {
                let cut = text.substring_char(lo, lo + (MAX_SUMMARY_CHARS - 1));
                let r = String::from_str(cut).concat("\u{2026}");
                proof {
                    reveal_strlit("\u{2026}");
                    assert(s.subrange(lo as int, hi as int).take(MAX_SUMMARY_CHARS - 1) =~= s.subrange(
                        lo as int,
                        lo as int + (MAX_SUMMARY_CHARS - 1),
                    ));
                    assert(r@ =~= summarize_spec(s));
                }
                return r;
            } else {
                let line = text.substring_char(lo, hi);
                return line.to_owned();
            }
        }
        if end == n {
            proof {
                assert(first_nonblank_line(rest) =~= Seq::<char>::empty());
            }
            return String::new();
        }
        proof {
            assert(rest.skip(end - start as int + 1) =~= s.skip(end as int + 1));
        }
        start = end + 1;
    }
}

/// The kilobyte figure shown beside an image clip: its byte count divided
/// by 1024, rounded up, saturating at the top of `usize`.
pub fn image_size_kb(len: usize) -> (kb: usize)
    ensures
        kb == (if len <= usize::MAX - 1023 {
            (len + 1023) / 1024
        } else {
            (usize::MAX / 1024) as int
        }),
{
    if len <= usize::MAX - 1023 {
        (len + 1023) / 1024
    } else {
        usize::MAX / 1024
    }
}

} // verus!
