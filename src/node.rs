use vstd::prelude::*;
use vstd::string::StringSliceAdditionalSpecFns;
use crate::datetime::{DateTime, Session};

verus! {

/// The payload of a task: its name and optional due date.
pub struct NodeData {
    pub name: String,
    pub due_date: Option<DateTime>,
}

impl NodeData {
    pub fn with_name(name: String) -> (r: NodeData)
        ensures
            r.name@ == name@,
            r.due_date is None,
    {
        NodeData { name, due_date: None }
    }
}

/// The place of a node among its siblings: `det` of `total`, 0 first.
#[derive(Clone, Copy, PartialEq, Eq, Structural, Debug)]
pub struct Priority {
    pub det: u64,
    pub total: u64,
}

impl Default for Priority {
    /// The only child of its parent.
    fn default() -> (r: Priority)
        ensures
            r == (Priority { det: 0, total: 1 }),
    {
        Priority { det: 0, total: 1 }
    }
}

/// A node as the tree view shows it: where it stands, its payload, its first
/// session, and the splits of its wrapped columns.
pub struct Node {
    pub id: u64,
    pub pid: u64,
    pub depth: usize,
    pub data: NodeData,
    pub session: Option<Session>,
    pub priority: Priority,
    pub name_splits: Vec<usize>,
    pub session_text: String,
    pub session_splits: Vec<usize>,
    pub due_date_text: String,
    pub due_date_splits: Vec<usize>,
}

/// The number of lines that the splits `s` delimit.
pub open spec fn lines(s: Seq<usize>) -> int {
    if s.len() > 0 {
        s.len() - 1
    } else {
        0
    }
}

/// The greatest of three integers.
pub open spec fn max3(a: int, b: int, c: int) -> int {
    if a >= b && a >= c {
        a
    } else if b >= c {
        b
    } else {
        c
    }
}

impl Node {
    /// The rows that the node takes: the most lines of any of its columns.
    pub open spec fn height_spec(&self) -> int {
        max3(lines(self.name_splits@), lines(self.session_splits@), lines(self.due_date_splits@))
    }

    pub fn height(&self) -> (r: usize)
        ensures
            r == self.height_spec(),
    {
        let a = self.name_splits.len().saturating_sub(1);
        let b = self.session_splits.len().saturating_sub(1);
        let c = self.due_date_splits.len().saturating_sub(1);
        if a >= b && a >= c {
            a
        } else if b >= c {
            b
        } else {
            c
        }
    }
}

/// The scanning state of the greedy word wrap, as a mathematical value.
///
/// `i` is the column (character index) where the current word (or the last
/// break) began and `beg` its byte offset; `alt_beg` is the byte offset of the
/// last column boundary met inside the current word; `d` is the alignment
/// offset, kept modulo the width, that pads a broken line up to the next
/// column boundary.
pub ghost struct WrapState {
    pub splits: Seq<usize>,
    pub i: int,
    pub beg: int,
    pub alt_beg: int,
    pub in_word: bool,
    pub long_word: bool,
    pub d: int,
}

pub open spec fn wrap_init() -> WrapState {
    WrapState {
        splits: Seq::empty(),
        i: 0,
        beg: 0,
        alt_beg: 0,
        in_word: false,
        long_word: false,
        d: 0,
    }
}

/// The alignment offset after padding the line that starts at column `i` up
/// to the next column boundary.
pub open spec fn pad(i: int, d: int, w: int) -> int {
    (d + w - (i + d) % w) % w
}

/// Appends `v` unless the splits already end with it.
pub open spec fn push_new(s: Seq<usize>, v: int) -> Seq<usize> {
    if s.len() > 0 && s.last() == v {
        s
    } else {
        s.push(v as usize)
    }
}

/// One step of the wrap: the character at column `j` and byte offset `pos`,
/// which is a space or not.
pub open spec fn wrap_step(st: WrapState, j: int, pos: int, space: bool, w: int) -> WrapState {
    let on_boundary = (j + st.d) % w == 0;
    if space {
        if st.in_word {
            let diff = (j + st.d) / w - (st.i + st.d) / w;
            let s1 = if j - st.i == w && !st.long_word {
                WrapState { splits: push_new(st.splits, st.beg), d: pad(st.i, st.d, w), ..st }
            } else {
                st
            };
            let breaks = diff > 0 && !((j + s1.d) % w == 0 && (s1.i + s1.d) % w == 0);
            let s2 = if breaks {
                if !s1.long_word {
                    WrapState {
                        splits: s1.splits.push(s1.beg as usize),
                        d: pad(s1.i, s1.d, w),
                        ..s1
                    }
                } else {
                    WrapState { splits: s1.splits.push(s1.alt_beg as usize), ..s1 }
                }
            } else {
                s1
            };
            let s3 = if (j + s2.d) % w == 0 {
                WrapState { splits: s2.splits.push(pos as usize), i: j, beg: pos, ..s2 }
            } else {
                s2
            };
            WrapState { in_word: false, long_word: false, ..s3 }
        } else if on_boundary {
            WrapState { splits: st.splits.push(pos as usize), i: j, beg: pos, ..st }
        } else {
            st
        }
    } else if !st.in_word {
        let splits = if on_boundary {
            st.splits.push(pos as usize)
        } else {
            st.splits
        };
        WrapState { splits, i: j, beg: pos, in_word: true, ..st }
    } else {
        let alt_beg = if on_boundary {
            pos
        } else {
            st.alt_beg
        };
        if j - st.i == w {
            WrapState {
                splits: st.splits.push(alt_beg as usize),
                i: j,
                beg: pos,
                alt_beg: pos,
                long_word: true,
                ..st
            }
        } else {
            WrapState { alt_beg, ..st }
        }
    }
}

/// Whether a byte starts a UTF-8 encoded character (is no continuation byte).
pub open spec fn is_lead(b: u8) -> bool {
    !(128 <= b < 192)
}

/// The number of characters that start in the first `n` bytes.
pub open spec fn chars_before(b: Seq<u8>, n: int) -> int
    decreases n,
{
    if n <= 0 {
        0
    } else {
        chars_before(b, n - 1) + if is_lead(b[n - 1]) {
            1int
        } else {
            0
        }
    }
}

/// The wrap state after the characters that start in the first `n` bytes.
pub open spec fn wrap_scan(b: Seq<u8>, n: int, w: int) -> WrapState
    decreases n,
{
    if n <= 0 {
        wrap_init()
    } else {
        let st = wrap_scan(b, n - 1, w);
        if is_lead(b[n - 1]) {
            wrap_step(st, chars_before(b, n - 1), n - 1, b[n - 1] == 32, w)
        } else {
            st
        }
    }
}

/// The split offsets of a non-empty text of UTF-8 bytes `b` wrapped at width
/// `w > 0`: the scan of every character and of one final space past the end,
/// then the end of the text unless the splits already end there.
pub open spec fn wrap_splits(b: Seq<u8>, w: int) -> Seq<usize> {
    let st = wrap_step(wrap_scan(b, b.len() as int, w), chars_before(b, b.len() as int), b.len() as int, true, w);
    push_new(st.splits, b.len() as int)
}

/// The split offsets of `text` wrapped at width `w`: `[0, 0]` for width zero,
/// nothing for an empty text, else the greedy wrap.
pub open spec fn wrap_spec(b: Seq<u8>, w: int) -> Seq<usize> {
    if w == 0 {
        seq![0usize, 0usize]
    } else if b.len() == 0 {
        Seq::empty()
    } else {
        wrap_splits(b, w)
    }
}

proof fn lemma_chars_before_bound(b: Seq<u8>, n: int)
    requires
        0 <= n <= b.len(),
    ensures
        0 <= chars_before(b, n) <= n,
    decreases n,
{
    if n > 0 {
        lemma_chars_before_bound(b, n - 1);
    }
}

/// Splits that never decrease and stay at most `bound`.
pub open spec fn sorted_within(s: Seq<usize>, bound: int) -> bool {
    &&& forall|a: int, c: int| 0 <= a <= c < s.len() ==> s[a] <= s[c]
    &&& forall|a: int| 0 <= a < s.len() ==> s[a] <= bound
}

/// What holds of the wrap state once the character at column `j` and at a
/// byte offset at most `p` has been scanned.
spec fn wrap_inv(st: WrapState, j: int, p: int, w: int) -> bool {
    &&& st.splits.len() > 0
    &&& st.splits[0] == 0
    &&& sorted_within(st.splits, p)
    &&& 0 <= st.i <= j
    &&& 0 <= st.d < w
    &&& 0 <= st.beg <= p
    &&& 0 <= st.alt_beg <= p
    &&& st.long_word ==> st.in_word
    &&& st.in_word ==> j - st.i < w
    &&& st.in_word && !st.long_word ==> st.splits.last() <= st.beg
    &&& st.long_word ==> st.splits.last() <= st.alt_beg
    &&& st.in_word && !st.long_word ==> (st.splits.last() <= st.alt_beg || (st.i + st.d) % w + (j
        - st.i) < w)
}

proof fn lemma_mod_shift(a: int, b: int, w: int)
    requires
        w > 0,
        0 <= a,
        0 <= b,
    ensures
        (a + b) % w == (a % w + b) % w,
{
    vstd::arithmetic::div_mod::lemma_add_mod_noop_right(b, a, w);
    assert(b + a == a + b);
    assert(b + a % w == a % w + b);
}

proof fn lemma_push_sorted(s: Seq<usize>, v: int, q: int)
    requires
        sorted_within(s, q),
        s.len() > 0 ==> s.last() <= v,
        0 <= v <= q,
        v <= usize::MAX,
    ensures
        sorted_within(s.push(v as usize), q),
{
    let t = s.push(v as usize);
    assert forall|a: int, c: int| 0 <= a <= c < t.len() implies t[a] <= t[c] by {
        if c == s.len() {
            if a < s.len() {
                assert(s[a] <= s[s.len() - 1]);
            }
        } else {
            assert(s[a] <= s[c]);
        }
    }
}

proof fn lemma_wrap_step_inv(st: WrapState, j: int, p: int, pos: int, space: bool, w: int)
    requires
        wrap_inv(st, j - 1, p, w),
        p < pos <= usize::MAX,
        j >= 1,
    ensures
        wrap_inv(wrap_step(st, j, pos, space, w), j, pos, w),
{
    let r = (st.i + st.d) % w;
    lemma_mod_shift(st.i + st.d, j - st.i, w);
    assert(j + st.d == (st.i + st.d) + (j - st.i));
    assert(0 <= r < w);
    let s = st.splits;
    assert(sorted_within(s, pos));
    if space {
        if st.in_word {
            let s1 = if j - st.i == w && !st.long_word {
                WrapState { splits: push_new(st.splits, st.beg), d: pad(st.i, st.d, w), ..st }
            } else {
                st
            };
            if j - st.i == w && !st.long_word {
                if !(s.len() > 0 && s.last() == st.beg) {
                    lemma_push_sorted(s, st.beg, pos);
                }
            }
            assert(sorted_within(s1.splits, pos));
            assert(s1.splits.last() <= s1.beg || s1.long_word);
            assert(s1.splits[0] == 0);
            lemma_push_sorted(s1.splits, pos, pos);
            if !s1.long_word {
                lemma_push_sorted(s1.splits, s1.beg, pos);
            } else {
                lemma_push_sorted(s1.splits, s1.alt_beg, pos);
            }
        } else {
            lemma_push_sorted(s, pos, pos);
        }
    } else if !st.in_word {
        lemma_push_sorted(s, pos, pos);
    } else {
        let on_boundary = (j + st.d) % w == 0;
        let alt_beg = if on_boundary {
            pos
        } else {
            st.alt_beg
        };
        if j - st.i == w {
            if !on_boundary && !st.long_word {
                if !(s.last() <= st.alt_beg) {
                    assert(r + (j - 1 - st.i) < w);
                    assert(r == 0);
                    vstd::arithmetic::div_mod::lemma_mod_self_0(w);
                    assert(false);
                }
            }
            lemma_push_sorted(s, alt_beg, pos);
        } else {
            if !on_boundary && !st.long_word && !(s.last() <= st.alt_beg) {
                assert(r + (j - st.i) != w) by {
                    vstd::arithmetic::div_mod::lemma_mod_self_0(w);
                }
            }
        }
    }
}

proof fn lemma_wrap_scan_inv(b: Seq<u8>, n: int, w: int)
    requires
        w > 0,
        1 <= n <= b.len(),
        b.len() <= usize::MAX,
        is_lead(b[0]),
    ensures
        chars_before(b, n) >= 1,
        wrap_inv(wrap_scan(b, n, w), chars_before(b, n) - 1, n - 1, w),
    decreases n,
{
    if n == 1 {
        vstd::arithmetic::div_mod::lemma_small_mod(0, w as nat);
        assert(wrap_scan(b, 0, w) == wrap_init());
        let st = wrap_scan(b, 1, w);
        assert(st.splits =~= seq![0usize]);
    } else {
        lemma_wrap_scan_inv(b, n - 1, w);
        let st = wrap_scan(b, n - 1, w);
        if is_lead(b[n - 1]) {
            lemma_wrap_step_inv(st, chars_before(b, n - 1), n - 2, n - 1, b[n - 1] == 32, w);
        } else {
            let j = chars_before(b, n - 1) - 1;
            assert(sorted_within(st.splits, n - 1));
        }
    }
}

/// Wrapping never loses or reorders text: for a non-empty text (whose first
/// byte, as in any UTF-8 text, is no continuation byte) and a positive width,
/// the splits start at 0, end at the text's length and never decrease, so
/// the lines they delimit concatenate back to the text.
pub proof fn lemma_wrap_covers_text(b: Seq<u8>, w: int)
    requires
        w > 0,
        0 < b.len() <= usize::MAX,
        is_lead(b[0]),
    ensures
        wrap_spec(b, w).len() >= 2,
        wrap_spec(b, w)[0] == 0,
        wrap_spec(b, w).last() == b.len(),
        sorted_within(wrap_spec(b, w), b.len() as int),
{
    let n = b.len() as int;
    lemma_wrap_scan_inv(b, n, w);
    let st = wrap_scan(b, n, w);
    lemma_wrap_step_inv(st, chars_before(b, n), n - 1, n, true, w);
    let fin = wrap_step(st, chars_before(b, n), n, true, w);
    if !(fin.splits.len() > 0 && fin.splits.last() == n) {
        lemma_push_sorted(fin.splits, n, n);
    }
}

/// `x` is where a character starts in `b`, or the end of `b`.
pub open spec fn char_start(b: Seq<u8>, x: int) -> bool {
    x == b.len() || (0 <= x < b.len() && is_lead(b[x]))
}

/// The splits, the word start and the last boundary of a wrap state are all
/// character starts.
spec fn starts_ok(b: Seq<u8>, st: WrapState) -> bool {
    &&& forall|k: int| 0 <= k < st.splits.len() ==> char_start(b, #[trigger] st.splits[k] as int)
    &&& char_start(b, st.beg)
    &&& char_start(b, st.alt_beg)
}

proof fn lemma_push_start(b: Seq<u8>, s: Seq<usize>, x: int)
    requires
        forall|k: int| 0 <= k < s.len() ==> char_start(b, #[trigger] s[k] as int),
        char_start(b, x),
        0 <= x <= usize::MAX,
    ensures
        forall|k: int| 0 <= k < s.push(x as usize).len() ==> char_start(b, #[trigger] s.push(x as usize)[k] as int),
{
    assert forall|k: int| 0 <= k < s.push(x as usize).len() implies char_start(b, #[trigger] s.push(x as usize)[k] as int) by {
        if k < s.len() {
            assert(s.push(x as usize)[k] == s[k]);
        }
    }
}

proof fn lemma_step_starts(b: Seq<u8>, st: WrapState, j: int, pos: int, space: bool, w: int)
    requires
        starts_ok(b, st),
        char_start(b, pos),
        0 <= pos <= usize::MAX,
        0 <= st.beg <= usize::MAX,
        0 <= st.alt_beg <= usize::MAX,
    ensures
        starts_ok(b, wrap_step(st, j, pos, space, w)),
{
    lemma_push_start(b, st.splits, pos);
    lemma_push_start(b, st.splits, st.beg);
    lemma_push_start(b, st.splits, st.alt_beg);
    let on_boundary = (j + st.d) % w == 0;
    let alt_beg = if on_boundary { pos } else { st.alt_beg };
    lemma_push_start(b, st.splits, alt_beg);
    if space && st.in_word {
        let s1 = if j - st.i == w && !st.long_word {
            WrapState { splits: push_new(st.splits, st.beg), d: pad(st.i, st.d, w), ..st }
        } else {
            st
        };
        lemma_push_start(b, s1.splits, s1.beg);
        lemma_push_start(b, s1.splits, s1.alt_beg);
        lemma_push_start(b, s1.splits.push(s1.beg as usize), pos);
        lemma_push_start(b, s1.splits.push(s1.alt_beg as usize), pos);
        lemma_push_start(b, s1.splits, pos);
    }
}

proof fn lemma_scan_starts(b: Seq<u8>, n: int, w: int)
    requires
        0 <= n <= b.len(),
        b.len() <= usize::MAX,
        b.len() > 0,
        is_lead(b[0]),
    ensures
        starts_ok(b, wrap_scan(b, n, w)),
        wrap_scan(b, n, w).beg <= n,
        wrap_scan(b, n, w).alt_beg <= n,
        wrap_scan(b, n, w).beg >= 0,
        wrap_scan(b, n, w).alt_beg >= 0,
    decreases n,
{
    if n > 0 {
        lemma_scan_starts(b, n - 1, w);
        if is_lead(b[n - 1]) {
            lemma_step_starts(b, wrap_scan(b, n - 1, w), chars_before(b, n - 1), n - 1, b[n - 1] == 32, w);
        }
    }
}

/// Every split of a non-empty text (whose first byte, as in any UTF-8 text,
/// is no continuation byte) falls where a character starts or at the end,
/// so each line is a slice of whole characters.
pub proof fn lemma_wrap_splits_on_char_starts(b: Seq<u8>, w: int)
    requires
        w > 0,
        0 < b.len() <= usize::MAX,
        is_lead(b[0]),
    ensures
        forall|k: int| 0 <= k < wrap_spec(b, w).len() ==> char_start(b, #[trigger] wrap_spec(b, w)[k] as int),
{
    let n = b.len() as int;
    lemma_scan_starts(b, n, w);
    let st = wrap_scan(b, n, w);
    lemma_step_starts(b, st, chars_before(b, n), n, true, w);
    let fin = wrap_step(st, chars_before(b, n), n, true, w);
    lemma_push_start(b, fin.splits, n);
}

/// The executable form of [`WrapState`].
struct WrapCursor {
    splits: Vec<usize>,
    i: usize,
    beg: usize,
    alt_beg: usize,
    in_word: bool,
    long_word: bool,
    d: usize,
}

impl WrapCursor {
    closed spec fn state(&self) -> WrapState {
        WrapState {
            splits: self.splits@,
            i: self.i as int,
            beg: self.beg as int,
            alt_beg: self.alt_beg as int,
            in_word: self.in_word,
            long_word: self.long_word,
            d: self.d as int,
        }
    }

    fn pad(&mut self, w: usize)
        requires
            w > 0,
            old(self).d < w,
        ensures
            final(self).state() == (WrapState { d: pad(old(self).i as int, old(self).d as int, w as int), ..old(self).state() }),
            final(self).d < w,
    {
        self.d = ((self.d as u128 + w as u128 - (self.i as u128 + self.d as u128) % (w as u128)) % (w as u128)) as usize;
    }

    fn step(&mut self, j: usize, pos: usize, space: bool, w: usize)
        requires
            w > 0,
            old(self).d < w,
            old(self).i <= j,
            old(self).beg <= pos,
            old(self).alt_beg <= pos,
        ensures
            final(self).state() == wrap_step(old(self).state(), j as int, pos as int, space, w as int),
            final(self).d < w,
            final(self).i <= j,
            final(self).beg <= pos,
            final(self).alt_beg <= pos,
    {
        let on_boundary = (j as u128 + self.d as u128) % (w as u128) == 0;
        if space {
            if self.in_word {
                let diff_pos = (j as u128 + self.d as u128) / (w as u128) > (self.i as u128
                    + self.d as u128) / (w as u128);
                if j - self.i == w && !self.long_word {
                    let len = self.splits.len();
                    if len == 0 || self.splits[len - 1] != self.beg {
                        self.splits.push(self.beg);
                    }
                    self.pad(w);
                }
                let on_line_start = (j as u128 + self.d as u128) % (w as u128) == 0 && (self.i as u128
                    + self.d as u128) % (w as u128) == 0;
                if diff_pos && !on_line_start {
                    if !self.long_word {
                        self.splits.push(self.beg);
                        self.pad(w);
                    } else {
                        self.splits.push(self.alt_beg);
                    }
                }
                if (j as u128 + self.d as u128) % (w as u128) == 0 {
                    self.splits.push(pos);
                    self.i = j;
                    self.beg = pos;
                }
                self.in_word = false;
                self.long_word = false;
            } else if on_boundary {
                self.splits.push(pos);
                self.i = j;
                self.beg = pos;
            }
        } else if !self.in_word {
            if on_boundary {
                self.splits.push(pos);
            }
            self.i = j;
            self.beg = pos;
            self.in_word = true;
        } else {
            if on_boundary {
                self.alt_beg = pos;
            }
            if j - self.i == w {
                self.splits.push(self.alt_beg);
                self.i = j;
                self.beg = pos;
                self.alt_beg = pos;
                self.long_word = true;
            }
        }
    }
}

/// Greedy word wrap of `text` at `w` columns: the byte offsets at which its
/// lines start, followed by its length; adjacent pairs delimit one line.
pub fn wrap_text(text: &str, w: usize) -> (r: Vec<usize>)
    ensures
        r@ == wrap_spec(text.spec_bytes(), w as int),
{
    if w == 0 {
        return vec![0, 0];
    }
    let b = text.as_bytes();
    let n = b.len();
    if n == 0 {
        return Vec::new();
    }
    let ghost bs = b@;
    let mut cur = WrapCursor {
        splits: Vec::new(),
        i: 0,
        beg: 0,
        alt_beg: 0,
        in_word: false,
        long_word: false,
        d: 0,
    };
    let mut j: usize = 0;
    let mut k: usize = 0;
    while k < n
        invariant
            n == bs.len(),
            b@ == bs,
            w > 0,
            k <= n,
            j == chars_before(bs, k as int),
            cur.state() == wrap_scan(bs, k as int, w as int),
            cur.i <= j,
            j <= k,
            cur.d < w,
            cur.beg <= k,
            cur.alt_beg <= k,
        decreases n - k,
    {
        proof {
            lemma_chars_before_bound(bs, k as int);
        }
        if b[k] < 128 || b[k] >= 192 {
            cur.step(j, k, b[k] == 32, w);
            j = j + 1;
        }
        k = k + 1;
    }
    cur.step(j, n, true, w);
    let len = cur.splits.len();
    if len == 0 || cur.splits[len - 1] != n {
        cur.splits.push(n);
    }
    cur.splits
}

} // verus!
