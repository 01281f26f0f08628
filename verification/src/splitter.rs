use vstd::prelude::*;

use crate::plan::batch_size;
use crate::plan::plan_batches;
use crate::plan::plan_spec;
use crate::scan::lemma_scan_from_snoc;
use crate::scan::scan_from;
use crate::scan::scan_init;
use crate::scan::scan_step;
use crate::scan::tokenize_spec;
use crate::scan::trim_seq;
use crate::scan::trimmed_string;
use crate::scan::ScanState;

verus! {

/// Configuration for one splitting run: the size budget per output file in
/// kilobytes, where the files go, and how many may be written at once.
pub struct SqlSplitter {
    pub max_size_kb: usize,
    pub output_dir: String,
    pub concurrent_writes: usize,
}

impl SqlSplitter {
    /// A splitter that writes files of at most `max_size_kb` kilobytes into
    /// `output_dir`, at most `concurrent_writes` at a time.
    pub fn new(output_dir: &str, max_size_kb: usize, concurrent_writes: usize) -> (r: Self)
        ensures
            r.max_size_kb == max_size_kb,
            r.output_dir@ == output_dir@,
            r.concurrent_writes == concurrent_writes,
    {
        SqlSplitter {
            max_size_kb,
            output_dir: output_dir.to_owned(),
            concurrent_writes,
        }
    }

    /// The statements of `content`, in source order.
    ///
    /// The text is cut at every semicolon that stands outside a
    /// single-quoted string literal; each piece is trimmed and kept when
    /// anything is left; text after the last semicolon is kept the same
    /// way.  The scan cannot fail: any text at all is acceptable input, and
    /// an unterminated literal simply runs to the end of the text.
    pub fn split_statements(content: &str) -> (r: Vec<String>)
        ensures
            r.deep_view() == tokenize_spec(content@),
    {
        let n = content.unicode_len();
        let mut stmts: Vec<String> = Vec::new();
        let mut buf: Vec<char> = Vec::new();
        let mut in_string = false;
        let mut escape_next = false;
        let mut i: usize = 0;
        proof {
            assert(content@.take(0) =~= Seq::<char>::empty());
            assert(stmts.deep_view() =~= Seq::<Seq<char>>::empty());
        }
        while i < n
            invariant
                i <= n,
                n == content@.len(),
                scan_from(scan_init(), content@.take(i as int)) == (ScanState {
                    in_string: in_string,
                    escape_next: escape_next,
                    buf: buf@,
                    stmts: stmts.deep_view(),
                }),
            decreases n - i,
        {
            let ghost prev = scan_from(scan_init(), content@.take(i as int));
            let c = content.get_char(i);
            proof {
                assert(content@.take(i + 1) =~= content@.take(i as int).push(c));
                lemma_scan_from_snoc(scan_init(), content@.take(i as int), c);
                assert(scan_from(scan_init(), content@.take(i + 1)) == scan_step(prev, c));
            }
            if c == '\\' && in_string {
                buf.push(c);
                escape_next = !escape_next;
            } else if c == '\'' && !escape_next {
                buf.push(c);
                in_string = !in_string;
            } else if c == ';' && !in_string {
                let t = trimmed_string(&buf);
                if !t.as_str().is_empty() {
                    stmts.push(t);
                    proof {
                        assert(stmts.deep_view() =~= prev.stmts.push(trim_seq(prev.buf)));
                    }
                }
                buf = Vec::new();
            } else {
                if c == '\'' {
                    escape_next = false;
                }
                buf.push(c);
            }
            i += 1;
        }
        proof {
            assert(content@.take(n as int) =~= content@);
        }
        let t = trimmed_string(&buf);
        if !t.as_str().is_empty() {
            stmts.push(t);
            proof {
                assert(stmts.deep_view() =~= tokenize_spec(content@));
            }
        }
        stmts
    }

    /// The full plan for `content`: its statements in source order, packed
    /// into batches under this splitter's byte budget of `max_size_kb`
    /// kilobytes.  Concatenating the batches in order restores the
    /// statement sequence.
    pub fn plan_content(&self, content: &str) -> (r: Vec<Vec<String>>)
        requires
            self.max_size_kb * 1024 <= usize::MAX,
        ensures
            r.deep_view() == plan_spec(
                tokenize_spec(content@),
                (self.max_size_kb * 1024) as nat,
            ),
            r.deep_view().flatten() == tokenize_spec(content@),
            forall|i: int|
                0 <= i < r.deep_view().len() ==> (#[trigger] r.deep_view()[i]).len() > 0 && (
                batch_size(r.deep_view()[i]) <= self.max_size_kb * 1024 || r.deep_view()[i].len()
                    == 1),
    {
        let statements = Self::split_statements(content);
        let max_bytes = self.max_size_kb * 1024;
        plan_batches(&statements, max_bytes)
    }
}

} // verus!
