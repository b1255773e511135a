use vstd::prelude::*;

verus! {

/// Where a left-to-right scan of a message line stands.
#[derive(Debug, Clone, Copy, PartialEq, Eq)]
pub struct Scan {
    /// How many objects and lists are open.
    pub depth: usize,
    /// Inside a quoted string.
    pub in_str: bool,
    /// Right after a backslash inside a quoted string.
    pub esc: bool,
    /// The next string at this level would be a member's key.
    pub key_next: bool,
    /// A closing bracket came with nothing open.
    pub broken: bool,
}

/// Space, tab, carriage return or newline.
pub open spec fn is_ws(b: u8) -> bool {
    b == 32u8 || b == 9u8 || b == 13u8 || b == 10u8
}

/// The state before the first byte.
pub open spec fn scan_start() -> Scan {
    Scan { depth: 0, in_str: false, esc: false, key_next: false, broken: false }
}

/// The state after byte `b` when the state before it was `st`.
pub open spec fn step(st: Scan, b: u8) -> Scan {
    if st.broken {
        st
    } else if st.in_str {
        if st.esc {
            Scan { esc: false, ..st }
        } else if b == 92u8 {
            Scan { esc: true, ..st }
        } else if b == 34u8 {
            Scan { in_str: false, ..st }
        } else {
            st
        }
    } else if b == 34u8 {
        Scan { in_str: true, key_next: false, ..st }
    } else if b == 123u8 || b == 91u8 {
        Scan { depth: (st.depth + 1) as usize, key_next: b == 123u8, ..st }
    } else if b == 125u8 || b == 93u8 {
        if st.depth == 0 {
            Scan { broken: true, ..st }
        } else {
            Scan { depth: (st.depth - 1) as usize, key_next: false, ..st }
        }
    } else if b == 44u8 {
        Scan { key_next: true, ..st }
    } else if is_ws(b) {
        st
    } else {
        Scan { key_next: false, ..st }
    }
}

/// The state before byte `i` of `s`.
pub open spec fn scan_to(s: Seq<u8>, i: int) -> Scan
    decreases i,
{
    if i <= 0 {
        scan_start()
    } else {
        step(scan_to(s, i - 1), s[i - 1])
    }
}

/// Nesting never grows faster than one level a byte.
pub proof fn lemma_depth_bound(s: Seq<u8>, i: int)
    requires
        0 <= i,
    ensures
        scan_to(s, i).depth <= i,
    decreases i,
{
    if i > 0 {
        lemma_depth_bound(s, i - 1);
    }
}

/// The state after `b`, computed.
pub fn step_exec(st: Scan, b: u8) -> (r: Scan)
    requires
        st.depth < usize::MAX,
    ensures
        r == step(st, b),
{
    if st.broken {
        st
    } else if st.in_str {
        if st.esc {
            Scan { esc: false, ..st }
        } else if b == 92u8 {
            Scan { esc: true, ..st }
        } else if b == 34u8 {
            Scan { in_str: false, ..st }
        } else {
            st
        }
    } else if b == 34u8 {
        Scan { in_str: true, key_next: false, ..st }
    } else if b == 123u8 || b == 91u8 {
        Scan { depth: st.depth + 1, key_next: b == 123u8, ..st }
    } else if b == 125u8 || b == 93u8 {
        if st.depth == 0 {
            Scan { broken: true, ..st }
        } else {
            Scan { depth: st.depth - 1, key_next: false, ..st }
        }
    } else if b == 44u8 {
        Scan { key_next: true, ..st }
    } else if b == 32u8 || b == 9u8 || b == 13u8 || b == 10u8 {
        st
    } else {
        Scan { key_next: false, ..st }
    }
}

/// Whether `s` is one object on one line: it opens with `{`, its outermost
/// object stays open until the last byte closes it, and no string is left open.
pub open spec fn frame_ok(s: Seq<u8>) -> bool {
    &&& s.len() >= 2
    &&& s[0] == 123u8
    &&& s.last() == 125u8
    &&& forall|i: int| 1 <= i < s.len() ==> (#[trigger] scan_to(s, i)).depth >= 1 && !scan_to(s, i).broken
    &&& scan_to(s, s.len() as int).depth == 0
    &&& !scan_to(s, s.len() as int).in_str
    &&& !scan_to(s, s.len() as int).broken
}

/// Checks that `s` is one object on one line.
pub fn check_frame(s: &Vec<u8>) -> (r: bool)
    ensures
        r == frame_ok(s@),
{
    let n = s.len();
    if n < 2 || s[0] != 123u8 || s[n - 1] != 125u8 {
        return false;
    }
    let mut st = step_exec(Scan { depth: 0, in_str: false, esc: false, key_next: false, broken: false }, s[0]);
    let mut i: usize = 1;
    proof {
        assert(scan_to(s@, 0) == scan_start());
    }
    while i < n
        invariant
            n == s@.len(),
            1 <= i <= n,
            st == scan_to(s@, i as int),
            forall|k: int| 1 <= k < i ==> (#[trigger] scan_to(s@, k)).depth >= 1 && !scan_to(s@, k).broken,
        decreases n - i,
    {
        if st.depth == 0 || st.broken {
            return false;
        }
        proof {
            lemma_depth_bound(s@, i as int);
        }
        st = step_exec(st, s[i]);
        i = i + 1;
    }
    st.depth == 0 && !st.in_str && !st.broken
}

/// Whether a member whose key is exactly `k` starts at byte `i` of `s`: a
/// quote at the outermost level where a key is due, `k`, and a closing quote.
pub open spec fn is_key_at(s: Seq<u8>, i: int, k: Seq<u8>) -> bool {
    &&& 0 <= i
    &&& i + k.len() + 1 < s.len()
    &&& s[i] == 34u8
    &&& scan_to(s, i).depth == 1
    &&& !scan_to(s, i).in_str
    &&& !scan_to(s, i).broken
    &&& scan_to(s, i).key_next
    &&& s.subrange(i + 1, i + 1 + k.len()) == k
    &&& s[i + 1 + k.len()] == 34u8
}

/// The first position at or after `i` where a member with key `k` starts.
pub open spec fn first_key_from(s: Seq<u8>, k: Seq<u8>, i: int) -> Option<int>
    decreases s.len() - i,
{
    if i < 0 || i >= s.len() {
        None
    } else if is_key_at(s, i, k) {
        Some(i)
    } else {
        first_key_from(s, k, i + 1)
    }
}

/// Whether bytes `i + 1 ..` of `s` are `k` followed by a quote.
fn key_matches(s: &Vec<u8>, i: usize, k: &Vec<u8>) -> (r: bool)
    requires
        i < s@.len(),
    ensures
        r == (i + k@.len() + 1 < s@.len() && s@.subrange(i + 1, i + 1 + k@.len()) == k@
            && s@[i + 1 + k@.len()] == 34u8),
{
    if k.len() >= s.len() - i - 1 {
        return false;
    }
    let mut j: usize = 0;
    while j < k.len()
        invariant
            s@.len() <= usize::MAX,
            i + k@.len() + 1 < s@.len(),
            j <= k@.len(),
            forall|t: int| 0 <= t < j ==> s@[i + 1 + t] == k@[t],
        decreases k@.len() - j,
    {
        if s[i + 1 + j] != k[j] {
            proof {
                assert(s@.subrange(i + 1, i + 1 + k@.len())[j as int] != k@[j as int]);
            }
            return false;
        }
        j = j + 1;
    }
    proof {
        assert(s@.subrange(i + 1, i + 1 + k@.len()) =~= k@);
    }
    s[i + 1 + k.len()] == 34u8
}

/// Finds where the first member with key `k` starts.
pub fn find_key(s: &Vec<u8>, k: &Vec<u8>) -> (r: Option<usize>)
    ensures
        r matches Some(i) ==> first_key_from(s@, k@, 0) == Some(i as int) && is_key_at(s@, i as int, k@),
        r is None ==> first_key_from(s@, k@, 0) is None,
{
    let n = s.len();
    let mut st = Scan { depth: 0, in_str: false, esc: false, key_next: false, broken: false };
    let mut i: usize = 0;
    while i < n
        invariant
            n == s@.len(),
            i <= n,
            st == scan_to(s@, i as int),
            first_key_from(s@, k@, 0) == first_key_from(s@, k@, i as int),
        decreases n - i,
    {
        if s[i] == 34u8 && st.depth == 1 && !st.in_str && !st.broken && st.key_next && key_matches(s, i, k) {
            return Some(i);
        }
        proof {
            lemma_depth_bound(s@, i as int);
        }
        st = step_exec(st, s[i]);
        i = i + 1;
    }
    None
}

/// The first position at or after `p` that is not white space, or the end.
pub open spec fn skip_ws(s: Seq<u8>, p: int) -> int
    decreases s.len() - p,
{
    if p < 0 || p >= s.len() {
        p
    } else if is_ws(s[p]) {
        skip_ws(s, p + 1)
    } else {
        p
    }
}

/// Skips white space from `p`.
pub fn skip_ws_exec(s: &Vec<u8>, p: usize) -> (r: usize)
    ensures
        r as int == skip_ws(s@, p as int),
        p <= r,
        p <= s@.len() ==> r <= s@.len(),
{
    let mut q = p;
    while q < s.len() && (s[q] == 32u8 || s[q] == 9u8 || s[q] == 13u8 || s[q] == 10u8)
        invariant
            p <= q,
            p <= s@.len() ==> q <= s@.len(),
            skip_ws(s@, p as int) == skip_ws(s@, q as int),
        decreases s@.len() - q,
    {
        q = q + 1;
    }
    q
}

/// Whether byte `j` of `s` ends a member value of the outermost object.
pub open spec fn ends_value(s: Seq<u8>, j: int) -> bool {
    &&& scan_to(s, j).depth == 1
    &&& !scan_to(s, j).in_str
    &&& !scan_to(s, j).broken
    &&& (s[j] == 44u8 || s[j] == 125u8)
}

/// The first position at or after `j`, and not before `v`, that ends a
/// member value, or the end of `s`.
pub open spec fn value_end_from(s: Seq<u8>, v: int, j: int) -> int
    decreases s.len() - j,
{
    if j < 0 || j >= s.len() {
        s.len() as int
    } else if j >= v && ends_value(s, j) {
        j
    } else {
        value_end_from(s, v, j + 1)
    }
}

/// Finds where the member value that starts at `v` ends.
pub fn value_end(s: &Vec<u8>, v: usize) -> (r: usize)
    ensures
        r as int == value_end_from(s@, v as int, 0),
        r <= s@.len(),
        v <= s@.len() ==> v <= r,
{
    let n = s.len();
    let mut st = Scan { depth: 0, in_str: false, esc: false, key_next: false, broken: false };
    let mut j: usize = 0;
    while j < n
        invariant
            n == s@.len(),
            j <= n,
            st == scan_to(s@, j as int),
            value_end_from(s@, v as int, 0) == value_end_from(s@, v as int, j as int),
        decreases n - j,
    {
        if j >= v && st.depth == 1 && !st.in_str && !st.broken && (s[j] == 44u8 || s[j] == 125u8) {
            return j;
        }
        proof {
            lemma_depth_bound(s@, j as int);
        }
        st = step_exec(st, s[j]);
        j = j + 1;
    }
    n
}

/// `e` moved back over the white space that ends `s[v..e]`.
pub open spec fn trim_end(s: Seq<u8>, v: int, e: int) -> int
    decreases e - v,
{
    if e > v && 0 < e <= s.len() && is_ws(s[e - 1]) {
        trim_end(s, v, e - 1)
    } else {
        e
    }
}

/// Trims the white space that ends `s[v..e]`.
pub fn trim_end_exec(s: &Vec<u8>, v: usize, e: usize) -> (r: usize)
    ensures
        r as int == trim_end(s@, v as int, e as int),
        r <= e,
        v <= e ==> v <= r,
{
    let mut q = e;
    while q > v && q <= s.len() && (s[q - 1] == 32u8 || s[q - 1] == 9u8 || s[q - 1] == 13u8 || s[q - 1] == 10u8)
        invariant
            q <= e,
            v <= e ==> v <= q,
            trim_end(s@, v as int, e as int) == trim_end(s@, v as int, q as int),
        decreases q,
    {
        q = q - 1;
    }
    q
}

} // verus!
