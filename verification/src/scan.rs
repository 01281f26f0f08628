//! The statement tokenizer's model: a single left-to-right scan that cuts
//! the text at semicolons standing outside single-quoted string literals.
//!
//! Two flags drive the scan.  `in_string` says whether the character read
//! next falls inside a single-quoted literal; `escape_next` says whether an
//! unconsumed backslash precedes it, so that an escaped quote does not close
//! the literal.  A semicolon read outside a literal closes the current
//! statement: the accumulated buffer is trimmed and, when anything is left,
//! emitted.  Whatever remains in the buffer at the end of the text is
//! flushed the same way, even without a final semicolon.
//!
//! The scanner knows nothing of SQL comments, double-quoted identifiers or
//! dollar-quoted strings: a semicolon inside any of those closes a statement
//! early.  That is the tool's accepted scope, not an error case; the scan is
//! total over every character sequence.

use vstd::prelude::*;

verus! {

/// The whitespace the splitter recognizes when trimming a statement:
/// blank, tab, line feed and carriage return.
pub open spec fn is_space(c: char) -> bool {
    c == ' ' || c == '\t' || c == '\n' || c == '\r'
}

/// `s` without its leading whitespace.
pub open spec fn trim_front(s: Seq<char>) -> Seq<char>
    decreases s.len(),
{
    if s.len() > 0 && is_space(s[0]) {
        trim_front(s.drop_first())
    } else {
        s
    }
}

/// `s` without its trailing whitespace.
pub open spec fn trim_back(s: Seq<char>) -> Seq<char>
    decreases s.len(),
{
    if s.len() > 0 && is_space(s.last()) {
        trim_back(s.drop_last())
    } else {
        s
    }
}

/// `s` without leading and trailing whitespace.
pub open spec fn trim_seq(s: Seq<char>) -> Seq<char> {
    trim_back(trim_front(s))
}

/// The scanner's state: the two literal-tracking flags, the characters
/// accumulated for the statement being read, and the statements already
/// emitted, in source order.
pub struct ScanState {
    pub in_string: bool,
    pub escape_next: bool,
    pub buf: Seq<char>,
    pub stmts: Seq<Seq<char>>,
}

/// The state before any character has been read.
pub open spec fn scan_init() -> ScanState {
    ScanState {
        in_string: false,
        escape_next: false,
        buf: Seq::empty(),
        stmts: Seq::empty(),
    }
}

/// One step of the scan: how reading `c` transforms the state.
///
/// A backslash inside a literal is kept and toggles `escape_next`, so runs
/// of backslashes alternate between escaping and escaped.  An unescaped
/// quote is kept and enters or leaves the literal.  A semicolon outside any
/// literal closes the statement: the buffer is trimmed, emitted when
/// non-empty, and cleared.  Every other character is kept; a quote that
/// reaches this last case was escaped, and consumes the pending escape.
pub open spec fn scan_step(st: ScanState, c: char) -> ScanState {
    if c == '\\' && st.in_string {
        ScanState {
            in_string: st.in_string,
            escape_next: !st.escape_next,
            buf: st.buf.push(c),
            stmts: st.stmts,
        }
    } else if c == '\'' && !st.escape_next {
        ScanState {
            in_string: !st.in_string,
            escape_next: st.escape_next,
            buf: st.buf.push(c),
            stmts: st.stmts,
        }
    } else if c == ';' && !st.in_string {
        ScanState {
            in_string: st.in_string,
            escape_next: st.escape_next,
            buf: Seq::empty(),
            stmts: if trim_seq(st.buf).len() > 0 {
                st.stmts.push(trim_seq(st.buf))
            } else {
                st.stmts
            },
        }
    } else {
        ScanState {
            in_string: st.in_string,
            escape_next: if c == '\'' {
                false
            } else {
                st.escape_next
            },
            buf: st.buf.push(c),
            stmts: st.stmts,
        }
    }
}

/// The scan folded over `s`, starting from `st`.
pub open spec fn scan_from(st: ScanState, s: Seq<char>) -> ScanState
    decreases s.len(),
{
    if s.len() == 0 {
        st
    } else {
        scan_from(scan_step(st, s[0]), s.drop_first())
    }
}

/// The statements of `s`: everything the full scan emitted, followed by the
/// trimmed final buffer when it is non-empty.
pub open spec fn tokenize_spec(s: Seq<char>) -> Seq<Seq<char>> {
    let st = scan_from(scan_init(), s);
    if trim_seq(st.buf).len() > 0 {
        st.stmts.push(trim_seq(st.buf))
    } else {
        st.stmts
    }
}

/// The raw scanner's state: the same flags and buffer as [`ScanState`],
/// but every segment between top-level semicolons is recorded untrimmed,
/// empty ones included.
pub struct SegState {
    pub in_string: bool,
    pub escape_next: bool,
    pub buf: Seq<char>,
    pub segs: Seq<Seq<char>>,
}

/// The raw scanner's state before any character has been read.
pub open spec fn seg_init() -> SegState {
    SegState {
        in_string: false,
        escape_next: false,
        buf: Seq::empty(),
        segs: Seq::empty(),
    }
}

/// One step of the raw scan: like [`scan_step`], except that a top-level
/// semicolon records the buffer as it stands, trimmed of nothing and
/// dropped never.
pub open spec fn seg_step(st: SegState, c: char) -> SegState {
    if c == '\\' && st.in_string {
        SegState {
            in_string: st.in_string,
            escape_next: !st.escape_next,
            buf: st.buf.push(c),
            segs: st.segs,
        }
    } else if c == '\'' && !st.escape_next {
        SegState {
            in_string: !st.in_string,
            escape_next: st.escape_next,
            buf: st.buf.push(c),
            segs: st.segs,
        }
    } else if c == ';' && !st.in_string {
        SegState {
            in_string: st.in_string,
            escape_next: st.escape_next,
            buf: Seq::empty(),
            segs: st.segs.push(st.buf),
        }
    } else {
        SegState {
            in_string: st.in_string,
            escape_next: if c == '\'' {
                false
            } else {
                st.escape_next
            },
            buf: st.buf.push(c),
            segs: st.segs,
        }
    }
}

/// The raw scan folded over `s`, starting from `st`.
pub open spec fn seg_from(st: SegState, s: Seq<char>) -> SegState
    decreases s.len(),
{
    if s.len() == 0 {
        st
    } else {
        seg_from(seg_step(st, s[0]), s.drop_first())
    }
}

/// The segments of `s`: the text between consecutive top-level semicolons,
/// raw, in order, with whatever follows the last semicolon as the final
/// segment — even when it is empty.
pub open spec fn segments(s: Seq<char>) -> Seq<Seq<char>> {
    let st = seg_from(seg_init(), s);
    st.segs.push(st.buf)
}

/// Each segment trimmed, and the empty results dropped.
pub open spec fn trimmed_keep(segs: Seq<Seq<char>>) -> Seq<Seq<char>> {
    segs.map_values(|t: Seq<char>| trim_seq(t)).filter(|t: Seq<char>| t.len() > 0)
}

/// Trimming and keeping distributes over recording one more segment.
proof fn lemma_trimmed_keep_push(segs: Seq<Seq<char>>, t: Seq<char>)
    ensures
        trimmed_keep(segs.push(t)) == if trim_seq(t).len() > 0 {
            trimmed_keep(segs).push(trim_seq(t))
        } else {
            trimmed_keep(segs)
        },
{
    let m = |u: Seq<char>| trim_seq(u);
    let p = |u: Seq<char>| u.len() > 0;
    assert(segs.push(t).map_values(m) =~= segs.map_values(m).push(trim_seq(t)));
    reveal(Seq::filter);
    assert(segs.map_values(m).push(trim_seq(t)).drop_last() =~= segs.map_values(m));
}

/// The two scanners agree: same flags, same buffer, and the statements
/// emitted so far are the recorded segments, trimmed and kept.
spec fn corresponds(a: ScanState, b: SegState) -> bool {
    &&& a.in_string == b.in_string
    &&& a.escape_next == b.escape_next
    &&& a.buf == b.buf
    &&& a.stmts == trimmed_keep(b.segs)
}

proof fn lemma_step_corresponds(a: ScanState, b: SegState, c: char)
    requires
        corresponds(a, b),
    ensures
        corresponds(scan_step(a, c), seg_step(b, c)),
{
    if c == ';' && !a.in_string {
        lemma_trimmed_keep_push(b.segs, b.buf);
    }
}

proof fn lemma_scan_seg_from(a: ScanState, b: SegState, s: Seq<char>)
    requires
        corresponds(a, b),
    ensures
        corresponds(scan_from(a, s), seg_from(b, s)),
    decreases s.len(),
{
    if s.len() > 0 {
        lemma_step_corresponds(a, b, s[0]);
        lemma_scan_seg_from(scan_step(a, s[0]), seg_step(b, s[0]), s.drop_first());
    }
}

proof fn lemma_init_corresponds()
    ensures
        corresponds(scan_init(), seg_init()),
{
    reveal(Seq::filter);
    let m = |u: Seq<char>| trim_seq(u);
    assert(Seq::<Seq<char>>::empty().map_values(m) =~= Seq::<Seq<char>>::empty());
}

/// Round trip of the cut: the statements of `s` are exactly its segments
/// between top-level semicolons, each trimmed, the empty ones dropped, in
/// source order.
pub proof fn lemma_tokenize_segments(s: Seq<char>)
    ensures
        tokenize_spec(s) == trimmed_keep(segments(s)),
{
    lemma_init_corresponds();
    lemma_scan_seg_from(scan_init(), seg_init(), s);
    let a = scan_from(scan_init(), s);
    let b = seg_from(seg_init(), s);
    lemma_trimmed_keep_push(b.segs, b.buf);
}

/// Statement count: one statement for every semicolon-terminated segment
/// that is non-empty after trimming, and one more when non-blank text
/// follows the last semicolon.
pub proof fn lemma_statement_count(s: Seq<char>)
    ensures
        ({
            let st = seg_from(seg_init(), s);
            tokenize_spec(s).len() == trimmed_keep(st.segs).len() + (if trim_seq(st.buf).len()
                > 0 {
                1int
            } else {
                0int
            })
        }),
{
    lemma_tokenize_segments(s);
    let st = seg_from(seg_init(), s);
    lemma_trimmed_keep_push(st.segs, st.buf);
}

/// A semicolon inside a string literal never cuts: reading it leaves the
/// statements emitted so far untouched and merely lengthens the buffer.
pub proof fn lemma_string_literal_immunity(s: Seq<char>, i: int)
    requires
        0 <= i < s.len(),
        s[i] == ';',
        scan_from(scan_init(), s.take(i)).in_string,
    ensures
        scan_from(scan_init(), s.take(i + 1)).stmts == scan_from(scan_init(), s.take(i)).stmts,
        scan_from(scan_init(), s.take(i + 1)).buf == scan_from(scan_init(), s.take(i)).buf.push(
            ';',
        ),
{
    assert(s.take(i + 1) =~= s.take(i).push(s[i]));
    lemma_scan_from_snoc(scan_init(), s.take(i), s[i]);
}

/// Dropping `lo` leading whitespace characters, up to the first character
/// that is none, is what `trim_front` does.
proof fn lemma_trim_front_skip(s: Seq<char>, lo: int)
    requires
        0 <= lo <= s.len(),
        forall|j: int| 0 <= j < lo ==> is_space(s[j]),
        lo < s.len() ==> !is_space(s[lo]),
    ensures
        trim_front(s) == s.skip(lo),
    decreases lo,
{
    if lo == 0 {
        assert(s.skip(0) =~= s);
    } else {
        assert(is_space(s[0]));
        assert(trim_front(s) == trim_front(s.drop_first()));
        lemma_trim_front_skip(s.drop_first(), lo - 1);
        assert(s.drop_first().skip(lo - 1) =~= s.skip(lo));
    }
}

/// Keeping the first `hi` characters, back to the last character that is no
/// whitespace, is what `trim_back` does.
proof fn lemma_trim_back_take(s: Seq<char>, hi: int)
    requires
        0 <= hi <= s.len(),
        forall|j: int| hi <= j < s.len() ==> is_space(s[j]),
        hi > 0 ==> !is_space(s[hi - 1]),
    ensures
        trim_back(s) == s.take(hi),
    decreases s.len(),
{
    if hi == s.len() {
        if s.len() > 0 {
            assert(!is_space(s.last()));
        }
        assert(s.take(hi) =~= s);
    } else {
        assert(is_space(s.last()));
        assert(trim_back(s) == trim_back(s.drop_last()));
        lemma_trim_back_take(s.drop_last(), hi);
        assert(s.drop_last().take(hi) =~= s.take(hi));
    }
}

/// Relies on `String::push`: it appends the given character to the end of
/// the string.
#[verifier::external_body]
pub(crate) fn push_char(s: &mut String, c: char)
    ensures
        final(s)@ == old(s)@.push(c),
{
    s.push(c)
}

/// The characters of `buf` with leading and trailing whitespace removed,
/// as a fresh string.
pub(crate) fn trimmed_string(buf: &Vec<char>) -> (r: String)
    ensures
        r@ == trim_seq(buf@),
{
    let n = buf.len();
    let mut lo: usize = 0;
    while lo < n && (buf[lo] == ' ' || buf[lo] == '\t' || buf[lo] == '\n' || buf[lo] == '\r')
        invariant
            lo <= n,
            n == buf@.len(),
            forall|j: int| 0 <= j < lo ==> is_space(buf@[j]),
        decreases n - lo,
    {
        lo += 1;
    }
    let mut hi: usize = n;
    while hi > lo && (buf[hi - 1] == ' ' || buf[hi - 1] == '\t' || buf[hi - 1] == '\n' || buf[hi
        - 1] == '\r')
        invariant
            lo <= hi <= n,
            n == buf@.len(),
            forall|j: int| hi <= j < n ==> is_space(buf@[j]),
        decreases hi,
    {
        hi -= 1;
    }
    proof {
        lemma_trim_front_skip(buf@, lo as int);
        lemma_trim_back_take(buf@.skip(lo as int), hi - lo);
        assert(buf@.skip(lo as int).take(hi - lo) =~= buf@.subrange(lo as int, hi as int));
    }
    let mut out = String::new();
    let mut k = lo;
    while k < hi
        invariant
            lo <= k <= hi <= n,
            n == buf@.len(),
            out@ =~= buf@.subrange(lo as int, k as int),
        decreases hi - k,
    {
        push_char(&mut out, buf[k]);
        k += 1;
        proof {
            assert(out@ =~= buf@.subrange(lo as int, k as int));
        }
    }
    proof {
        assert(out@ =~= trim_seq(buf@));
    }
    out
}

/// Folding one more character equals stepping the fold of the prefix.
pub proof fn lemma_scan_from_snoc(st: ScanState, s: Seq<char>, c: char)
    ensures
        scan_from(st, s.push(c)) == scan_step(scan_from(st, s), c),
    decreases s.len(),
{
    if s.len() == 0 {
        assert(s.push(c)[0] == c);
        assert(s.push(c).drop_first() =~= Seq::<char>::empty());
        assert(scan_from(st, s.push(c)) == scan_from(
            scan_step(st, c),
            Seq::<char>::empty(),
        ));
        assert(scan_from(scan_step(st, c), Seq::<char>::empty()) == scan_step(st, c));
        assert(scan_from(st, s) == st);
    } else {
        assert(s.push(c)[0] == s[0]);
        assert(s.push(c).drop_first() =~= s.drop_first().push(c));
        assert(scan_from(st, s.push(c)) == scan_from(
            scan_step(st, s[0]),
            s.drop_first().push(c),
        ));
        lemma_scan_from_snoc(scan_step(st, s[0]), s.drop_first(), c);
        assert(scan_from(st, s) == scan_from(scan_step(st, s[0]), s.drop_first()));
    }
}

} // verus!
