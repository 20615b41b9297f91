//! The single-pass literal scanner. One forward pass over the source text
//! tracks quote state (with a one-character look-back for escaped quotes),
//! whether the target block has been entered, and the current line number, and
//! collects every quoted literal that closes inside the target block. The
//! first unquoted `}` after entering the block ends the scan; the scanner
//! assumes the block holds no nested objects, so that brace is taken as the
//! block's terminator.

use vstd::prelude::*;

use crate::text::count_newlines;
use crate::text::str_eq;

verus! {

/// The scanner's state after some prefix of the text has been processed.
pub struct ScanState {
    /// Whether the scan head stands inside a quoted literal.
    pub inside_quotes: bool,
    /// Whether the target block's key literal has been seen.
    pub inside_block: bool,
    /// Whether the block's terminating `}` has been seen; a done state is
    /// final and later characters leave it unchanged.
    pub done: bool,
    /// Current 1-based line number.
    pub line: nat,
    /// Index of the character just after the current literal's opening quote
    /// (meaningful while `inside_quotes`).
    pub lit_start: nat,
    /// Line on which the current literal's opening quote stood (meaningful
    /// while `inside_quotes`).
    pub lit_line: nat,
    /// The literals collected so far: content and opening-quote line, in
    /// order of appearance.
    pub bufs: Seq<(Seq<char>, nat)>,
}

/// The state before any character has been processed.
pub open spec fn scan_init() -> ScanState {
    ScanState {
        inside_quotes: false,
        inside_block: false,
        done: false,
        line: 1,
        lit_start: 0,
        lit_line: 1,
        bufs: Seq::empty(),
    }
}

/// Whether the character at index `i` is an unescaped quote: a `"` whose
/// immediately preceding character is not `\`. Only this one-character
/// look-back decides; a literal ending in an escaped backslash is therefore
/// not closed by the quote that follows it, a deliberate property of the
/// scanner.
pub open spec fn unescaped_quote(text: Seq<char>, i: int) -> bool {
    text[i] == '"' && (i == 0 || text[i - 1] != '\\')
}

/// One step of the scanner: the state after processing `text[i]`.
pub open spec fn scan_step(text: Seq<char>, key: Seq<char>, st: ScanState, i: int) -> ScanState {
    if st.done {
        st
    } else if unescaped_quote(text, i) {
        if !st.inside_quotes {
            ScanState {
                inside_quotes: true,
                lit_start: (i + 1) as nat,
                lit_line: st.line,
                ..st
            }
        } else {
            ScanState {
                inside_quotes: false,
                bufs: if st.inside_block {
                    st.bufs.push((text.subrange(st.lit_start as int, i), st.lit_line))
                } else {
                    st.bufs
                },
                inside_block: st.inside_block || text.subrange(st.lit_start as int, i) == key,
                ..st
            }
        }
    } else if text[i] == '}' && !st.inside_quotes && st.inside_block {
        ScanState { done: true, ..st }
    } else if text[i] == '\n' {
        ScanState { line: st.line + 1, ..st }
    } else {
        st
    }
}

/// The scanner's state after the first `n` characters of `text`.
pub open spec fn scan_prefix(text: Seq<char>, key: Seq<char>, n: int) -> ScanState
    decreases n,
{
    if n <= 0 {
        scan_init()
    } else {
        scan_step(text, key, scan_prefix(text, key, n - 1), n - 1)
    }
}

/// The literals the scan of the whole text collects.
pub open spec fn literals_of(text: Seq<char>, key: Seq<char>) -> Seq<(Seq<char>, nat)> {
    scan_prefix(text, key, text.len() as int).bufs
}

/// A done state is final: scanning further characters changes nothing.
pub proof fn lemma_done_frozen(text: Seq<char>, key: Seq<char>, m: int, n: int)
    requires
        0 <= m <= n,
        scan_prefix(text, key, m).done,
    ensures
        scan_prefix(text, key, n) == scan_prefix(text, key, m),
    decreases n - m,
{
    if m < n {
        lemma_done_frozen(text, key, m, n - 1);
    }
}

/// The basic running invariant of the scan: while the scan has not ended, the
/// line counter is exactly one more than the number of newlines processed,
/// and while the head stands inside a literal, the recorded opening position
/// is an unescaped quote and the recorded literal line counts the newlines
/// before that quote.
pub open spec fn scan_inv(text: Seq<char>, key: Seq<char>, n: int) -> bool {
    let st = scan_prefix(text, key, n);
    !st.done ==> {
        &&& st.line == 1 + count_newlines(text.take(n))
        &&& st.inside_quotes ==> {
            &&& 1 <= st.lit_start <= n
            &&& unescaped_quote(text, st.lit_start - 1)
            &&& st.lit_line == 1 + count_newlines(text.take(st.lit_start - 1))
        }
    }
}

pub proof fn lemma_scan_inv(text: Seq<char>, key: Seq<char>, n: int)
    requires
        0 <= n <= text.len(),
    ensures
        scan_inv(text, key, n),
    decreases n,
{
    if n > 0 {
        lemma_scan_inv(text, key, n - 1);
        crate::text::lemma_count_newlines_take(text, n - 1);
    } else {
        assert(text.take(0) =~= Seq::<char>::empty());
    }
}

/// Every collected literal is the verbatim text between an unescaped opening
/// quote and an unescaped closing quote, and its recorded line is one more
/// than the number of newlines before the opening quote.
pub open spec fn entry_provenance(text: Seq<char>, entry: (Seq<char>, nat), n: int) -> bool {
    exists|o: int, c: int|
        {
            &&& 1 <= o <= c < n
            &&& unescaped_quote(text, o - 1)
            &&& unescaped_quote(text, c)
            &&& entry.0 == #[trigger] text.subrange(o, c)
            &&& entry.1 == 1 + count_newlines(text.take(o - 1))
        }
}

pub proof fn lemma_scan_provenance(text: Seq<char>, key: Seq<char>, n: int)
    requires
        0 <= n <= text.len(),
    ensures
        forall|k: int|
            0 <= k < scan_prefix(text, key, n).bufs.len() ==> entry_provenance(
                text,
                #[trigger] scan_prefix(text, key, n).bufs[k],
                n,
            ),
    decreases n,
{
    if n > 0 {
        lemma_scan_provenance(text, key, n - 1);
        lemma_scan_inv(text, key, n - 1);
        let st = scan_prefix(text, key, n - 1);
        let st1 = scan_prefix(text, key, n);
        assert forall|k: int| 0 <= k < st1.bufs.len() implies entry_provenance(
            text,
            #[trigger] st1.bufs[k],
            n,
        ) by {
            if k < st.bufs.len() {
                assert(entry_provenance(text, st.bufs[k], n - 1));
                let (o, c): (int, int) = choose|o: int, c: int|
                    {
                        &&& 1 <= o <= c < n - 1
                        &&& unescaped_quote(text, o - 1)
                        &&& unescaped_quote(text, c)
                        &&& st.bufs[k].0 == #[trigger] text.subrange(o, c)
                        &&& st.bufs[k].1 == 1 + count_newlines(text.take(o - 1))
                    };
                assert(st1.bufs[k] == st.bufs[k]);
            } else {
                // The step pushed this entry: it closes the current literal.
                let o = st.lit_start as int;
                let c = n - 1;
                assert(st1.bufs[k] == (text.subrange(o, c), st.lit_line));
                assert(1 <= o <= c < n);
            }
        }
    }
}

/// Characters that are neither quotes nor closing braces leave everything but
/// the line counter unchanged: nothing between literals is ever captured.
pub proof fn lemma_quiet_region(text: Seq<char>, key: Seq<char>, m: int, n: int)
    requires
        0 <= m <= n <= text.len(),
        forall|j: int| m <= j < n ==> text[j] != '"' && text[j] != '}',
    ensures
        scan_prefix(text, key, n).bufs == scan_prefix(text, key, m).bufs,
        scan_prefix(text, key, n).inside_quotes == scan_prefix(text, key, m).inside_quotes,
        scan_prefix(text, key, n).inside_block == scan_prefix(text, key, m).inside_block,
        scan_prefix(text, key, n).done == scan_prefix(text, key, m).done,
    decreases n - m,
{
    if m < n {
        lemma_quiet_region(text, key, m, n - 1);
    }
}

/// Recursive view of the collected literal buffer: exec entries as their
/// mathematical values.
pub open spec fn buf_views(s: Seq<(String, usize)>) -> Seq<(Seq<char>, nat)>
    decreases s.len(),
{
    if s.len() == 0 {
        Seq::empty()
    } else {
        buf_views(s.drop_last()).push((s.last().0@, s.last().1 as nat))
    }
}

pub proof fn lemma_buf_views_len(s: Seq<(String, usize)>)
    ensures
        buf_views(s).len() == s.len(),
        forall|i: int|
            0 <= i < s.len() ==> #[trigger] buf_views(s)[i] == (s[i].0@, s[i].1 as nat),
    decreases s.len(),
{
    if s.len() > 0 {
        lemma_buf_views_len(s.drop_last());
    }
}

/// Runs the scan over `source`, collecting every literal that closes inside
/// the block keyed by `key`, each with the line of its opening quote.
pub fn scan_literals(source: &str, key: &str) -> (bufs: Vec<(String, usize)>)
    requires
        source@.len() < usize::MAX,
    ensures
        buf_views(bufs@) == literals_of(source@, key@),
{
    let n: usize = source.unicode_len();
    let ghost text = source@;

    let mut bufs: Vec<(String, usize)> = Vec::new();
    let mut line_no: usize = 1;
    let mut inside_quotes: bool = false;
    let mut inside_block: bool = false;
    let mut lit_start: usize = 0;
    let mut lit_line: usize = 1;
    let mut ended: bool = false;

    let mut i: usize = 0;
    proof {
        assert(buf_views(bufs@) =~= scan_prefix(text, key@, 0).bufs);
    }
    while i < n && !ended
        invariant
            0 <= i <= n,
            n == text.len(),
            n < usize::MAX,
            source@ == text,
            line_no <= i + 1,
            buf_views(bufs@) == scan_prefix(text, key@, i as int).bufs,
            !ended ==> {
                let st = scan_prefix(text, key@, i as int);
                &&& !st.done
                &&& inside_quotes == st.inside_quotes
                &&& inside_block == st.inside_block
                &&& line_no as nat == st.line
                &&& inside_quotes ==> lit_start as nat == st.lit_start && lit_line as nat
                    == st.lit_line && lit_start <= i
            },
            ended ==> scan_prefix(text, key@, i as int).done,
        decreases n - i,
    {
        let ghost st = scan_prefix(text, key@, i as int);
        let ch = source.get_char(i);
        let escaped = if i == 0 {
            false
        } else {
            source.get_char(i - 1) == '\\'
        };
        if ch == '"' && !escaped {
            if !inside_quotes {
                inside_quotes = true;
                lit_start = i + 1;
                lit_line = line_no;
            } else {
                inside_quotes = false;
                let lit = source.substring_char(lit_start, i);
                if inside_block {
                    let ghost pre = bufs@;
                    bufs.push((lit.to_owned(), lit_line));
                    proof {
                        assert(bufs@.drop_last() =~= pre);
                    }
                }
                if str_eq(lit, key) {
                    inside_block = true;
                }
            }
        } else if ch == '}' && !inside_quotes && inside_block {
            ended = true;
        } else if ch == '\n' {
            line_no = line_no + 1;
        }
        proof {
            assert(scan_prefix(text, key@, i + 1) == scan_step(text, key@, st, i as int));
        }
        i = i + 1;
    }
    proof {
        if ended {
            lemma_done_frozen(text, key@, i as int, n as int);
        }
    }
    bufs
}

} // verus!
