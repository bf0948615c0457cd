//! Values handed to the user interface.
use crate::text::{join_lines, lines, split_lines, string_push};
use vstd::prelude::*;

verus! {

/// A file picked for sending: name, path, size in bytes and SHA-1 (lower-case hex).
#[derive(Debug, Clone)]
pub struct FileInfo {
    pub name: String,
    pub path: String,
    pub size: u64,
    pub sha1: String,
}

/// A log file larger than this (5 MiB) is discarded when logging starts.
pub const LOG_ROTATE_BYTES: u64 = 5 * 1024 * 1024;

/// Whether a log file of `len` bytes is discarded when logging starts:
/// exactly when it is larger than 5 MiB.
pub fn log_needs_rotation(len: u64) -> (r: bool)
    ensures
        r == (len > LOG_ROTATE_BYTES),
{
    len > LOG_ROTATE_BYTES
}

/// How many log lines the log screen shows when it asks for no number.
pub const DEFAULT_LOG_LINES: usize = 500;

/// The last `max_lines` lines of a log (500 when `None`), joined with `\n`.
pub open spec fn log_tail_spec(content: Seq<char>, max_lines: Option<usize>) -> Seq<char> {
    let ls = lines(content);
    let max = match max_lines {
        Some(m) => m as int,
        None => DEFAULT_LOG_LINES as int,
    };
    let start = if ls.len() > max {
        ls.len() - max
    } else {
        0
    };
    join_lines(ls.subrange(start, ls.len() as int))
}

/// The log screen shows the last lines in terms of what it is for: asked for
/// `m` lines it gives the last `m` of the log's `L` lines joined with `\n`,
/// or all `L` of them when `m >= L`, for every `m` (no cap); asked for no
/// number it gives the last 500.
pub proof fn lemma_log_tail_last_lines(content: Seq<char>, m: usize)
    ensures
        ({
            let ls = lines(content);
            let keep = if m <= ls.len() {
                m as int
            } else {
                ls.len() as int
            };
            log_tail_spec(content, Some(m)) == join_lines(ls.skip(ls.len() - keep))
        }),
        m >= lines(content).len() ==> log_tail_spec(content, Some(m)) == join_lines(lines(content)),
        log_tail_spec(content, None) == log_tail_spec(content, Some(500usize)),
{
    let ls = lines(content);
    assert(ls.subrange(0, ls.len() as int) =~= ls);
    if m <= ls.len() {
        assert(ls.subrange(ls.len() - m, ls.len() as int) =~= ls.skip(ls.len() - m));
    } else {
        assert(ls.skip(0) =~= ls);
    }
}

/// The last `max_lines` lines of the log text `content` (500 when `None`),
/// joined with `\n`; line endings are `\n` or `\r\n`.
pub fn log_tail(content: &str, max_lines: Option<usize>) -> (tail: String)
    requires
        content@.len() < isize::MAX / 4,
    ensures
        tail@ == log_tail_spec(content@, max_lines),
{
    let ls = split_lines(content);
    let ghost l = lines(content@);
    let n = ls.len();
    let max = match max_lines {
        Some(m) => m,
        None => DEFAULT_LOG_LINES,
    };
    let start = if n > max {
        n - max
    } else {
        0
    };
    let mut tail = String::new();
    let mut i = start;
    while i < n
        invariant
            start <= i <= n,
            n == ls@.len(),
            n == l.len(),
            l == lines(content@),
            content@.len() < isize::MAX / 4,
            forall|j: int| 0 <= j < n ==> #[trigger] ls@[j]@ == l[j],
            tail@ == join_lines(l.subrange(start as int, i as int)),
        decreases n - i,
    {
        proof {
            crate::text::lemma_joined_tail_bounded(content@, start as int, i + 1);
            assert(l.subrange(start as int, i + 1).drop_last() =~= l.subrange(
                start as int,
                i as int,
            ));
        }
        let ghost before = tail@;
        proof {
            if i == start {
                assert(l.subrange(start as int, i as int) =~= Seq::<Seq<char>>::empty());
            }
        }
        if i > start {
            string_push(&mut tail, '\n');
        }
        let line = &ls[i];
        let m = line.len();
        proof {
            let sub = l.subrange(start as int, i + 1);
            assert(sub.len() == i + 1 - start);
            assert(sub.last() == l[i as int]);
            if i > start {
                assert(join_lines(sub) == join_lines(sub.drop_last()) + seq!['\n'] + sub.last());
            } else {
                assert(join_lines(sub) == sub[0]);
            }
            assert(before.len() + (if i > start { 1int } else { 0int }) + m <= content@.len());
        }
        let mut k: usize = 0;
        while k < m
            invariant
                k <= m,
                start <= i < n,
                n == l.len(),
                m == line@.len(),
                line@ == l[i as int],
                i > start ==> tail@ == before + seq!['\n'] + line@.take(k as int),
                before.len() + (if i > start { 1int } else { 0int }) + m <= content@.len(),
                i == start ==> tail@ == before + line@.take(k as int),
                before == join_lines(l.subrange(start as int, i as int)),
                i == start ==> before.len() == 0,
                join_lines(l.subrange(start as int, i + 1)).len() <= content@.len(),
                join_lines(l.subrange(start as int, i + 1)) == if i > start {
                    before + seq!['\n'] + line@
                } else {
                    line@
                },
                content@.len() < isize::MAX / 4,
            decreases m - k,
        {
            string_push(&mut tail, line[k]);
            proof {
                if i > start {
                    assert(tail@ =~= before + seq!['\n'] + line@.take(k + 1));
                } else {
                    assert(tail@ =~= before + line@.take(k + 1));
                }
            }
            k = k + 1;
        }
        proof {
            assert(line@.take(m as int) =~= line@);
            if i == start {
                assert(before =~= Seq::<char>::empty());
                assert(tail@ =~= line@);
            }
        }
        i = i + 1;
    }
    tail
}

} // verus!
