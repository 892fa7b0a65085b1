//! Low-level character and text helpers shared by the scanner, the parsers
//! and the normalizer. All text handled by the library is a `Vec<char>`
//! whose mathematical model is its view, a `Seq<char>`.

use vstd::prelude::*;

verus! {

/// The characters the grammar treats as horizontal whitespace.
pub open spec fn is_space_char(c: char) -> bool {
    c == ' ' || c == '\t'
}

/// ASCII letters and digits; everything else counts as a markup boundary.
pub open spec fn is_ascii_alnum(c: char) -> bool {
    ('a' <= c && c <= 'z') || ('A' <= c && c <= 'Z') || ('0' <= c && c <= '9')
}

/// Two characters are equal up to ASCII case: either identical, or the same
/// letter with one of the two in lower case (ASCII puts a lower-case letter
/// exactly 32 scalar values above its upper-case form).
pub open spec fn char_eq_ci(a: char, b: char) -> bool {
    ||| a == b
    ||| ((a as u32) + 32 == (b as u32) && 'A' <= a && a <= 'Z')
    ||| ((b as u32) + 32 == (a as u32) && 'A' <= b && b <= 'Z')
}

/// Two character sequences are equal up to ASCII case.
pub open spec fn seq_eq_ci(a: Seq<char>, b: Seq<char>) -> bool {
    a.len() == b.len() && forall|i: int| 0 <= i < a.len() ==> char_eq_ci(a[i], #[trigger] b[i])
}

pub fn space_char(c: char) -> (r: bool)
    ensures
        r == is_space_char(c),
{
    c == ' ' || c == '\t'
}

pub fn ascii_alnum(c: char) -> (r: bool)
    ensures
        r == is_ascii_alnum(c),
{
    ('a' <= c && c <= 'z') || ('A' <= c && c <= 'Z') || ('0' <= c && c <= '9')
}

pub fn chars_eq(a: &Vec<char>, b: &Vec<char>) -> (r: bool)
    ensures
        r == (a@ == b@),
{
    if a.len() != b.len() {
        proof {
            assert(a@.len() != b@.len());
        }
        return false;
    }
    for i in 0..a.len()
        invariant
            a@.len() == b@.len(),
            forall|j: int| 0 <= j < i ==> a@[j] == b@[j],
    {
        if a[i] != b[i] {
            return false;
        }
    }
    proof {
        assert(a@ =~= b@);
    }
    true
}

pub fn chars_eq_ci(a: &Vec<char>, b: &Vec<char>) -> (r: bool)
    ensures
        r == seq_eq_ci(a@, b@),
{
    if a.len() != b.len() {
        return false;
    }
    for i in 0..a.len()
        invariant
            a@.len() == b@.len(),
            forall|j: int| 0 <= j < i ==> char_eq_ci(a@[j], b@[j]),
    {
        let ca = a[i];
        let cb = b[i];
        let same = ca == cb || ('A' <= ca && ca <= 'Z' && (ca as u32) + 32 == (cb as u32)) || ('A'
            <= cb && cb <= 'Z' && (cb as u32) + 32 == (ca as u32));
        if !same {
            return false;
        }
    }
    true
}

/// Copies a character sequence; the result has the very same view.
pub fn copy_chars(a: &Vec<char>) -> (r: Vec<char>)
    ensures
        r@ == a@,
{
    let mut out: Vec<char> = Vec::new();
    for i in 0..a.len()
        invariant
            out@ == a@.subrange(0, i as int),
    {
        out.push(a[i]);
        proof {
            assert(out@ =~= a@.subrange(0, i + 1 as int));
        }
    }
    proof {
        assert(out@ =~= a@);
    }
    out
}

/// Converts borrowed string data into the library's text representation.
pub fn text(s: &str) -> (r: Vec<char>)
    ensures
        r@ == s@,
{
    let n = s.unicode_len();
    let mut out: Vec<char> = Vec::new();
    for i in 0..n
        invariant
            n == s@.len(),
            out@ == s@.subrange(0, i as int),
    {
        out.push(s.get_char(i));
        proof {
            assert(out@ =~= s@.subrange(0, i + 1 as int));
        }
    }
    proof {
        assert(out@ =~= s@);
    }
    out
}

/// `s` with leading and trailing whitespace removed, as a mathematical value.
pub open spec fn trim_spec(s: Seq<char>) -> Seq<char> {
    trim_end_spec(trim_start_spec(s))
}

pub open spec fn trim_start_spec(s: Seq<char>) -> Seq<char>
    decreases s.len(),
{
    if s.len() == 0 {
        s
    } else if is_space_char(s[0]) {
        trim_start_spec(s.skip(1))
    } else {
        s
    }
}

pub open spec fn trim_end_spec(s: Seq<char>) -> Seq<char>
    decreases s.len(),
{
    if s.len() == 0 {
        s
    } else if is_space_char(s[s.len() - 1]) {
        trim_end_spec(s.take(s.len() - 1))
    } else {
        s
    }
}

proof fn lemma_trim_start_step(s: Seq<char>)
    requires
        s.len() > 0,
        is_space_char(s[0]),
    ensures
        trim_start_spec(s) == trim_start_spec(s.skip(1)),
{
}

/// Removes trailing whitespace only.
pub fn trim_end(s: &Vec<char>) -> (r: Vec<char>)
    ensures
        r@ == trim_end_spec(s@),
{
    let mut hi: usize = s.len();
    proof {
        assert(s@.take(s@.len() as int) =~= s@);
    }
    while hi > 0 && space_char(s[hi - 1])
        invariant
            0 <= hi <= s@.len(),
            trim_end_spec(s@) == trim_end_spec(s@.take(hi as int)),
        decreases hi,
    {
        proof {
            let cur = s@.take(hi as int);
            assert(cur[cur.len() - 1] == s@[hi - 1]);
            assert(cur.take(cur.len() - 1) =~= s@.take(hi - 1 as int));
        }
        hi = hi - 1;
    }
    proof {
        let cur = s@.take(hi as int);
        if hi > 0 {
            assert(cur[cur.len() - 1] == s@[hi - 1]);
            assert(trim_end_spec(cur) == cur);
        } else {
            assert(cur =~= Seq::<char>::empty());
            assert(trim_end_spec(cur) == cur);
        }
    }
    let mut out: Vec<char> = Vec::new();
    let mut i: usize = 0;
    while i < hi
        invariant
            0 <= i <= hi <= s@.len(),
            out@ == s@.subrange(0, i as int),
        decreases hi - i,
    {
        out.push(s[i]);
        proof {
            assert(out@ =~= s@.subrange(0, i + 1 as int));
        }
        i = i + 1;
    }
    proof {
        assert(out@ =~= s@.take(hi as int));
    }
    out
}

/// Removes leading and trailing whitespace.
pub fn trim(s: &Vec<char>) -> (r: Vec<char>)
    ensures
        r@ == trim_spec(s@),
{
    let mut lo: usize = 0;
    proof {
        assert(s@.skip(0) =~= s@);
    }
    while lo < s.len() && space_char(s[lo])
        invariant
            0 <= lo <= s@.len(),
            trim_start_spec(s@) == trim_start_spec(s@.skip(lo as int)),
        decreases s@.len() - lo,
    {
        proof {
            lemma_trim_start_step(s@.skip(lo as int));
            assert(s@.skip(lo as int).skip(1) =~= s@.skip(lo + 1 as int));
        }
        lo = lo + 1;
    }
    proof {
        if lo < s@.len() {
            assert(trim_start_spec(s@.skip(lo as int)) == s@.skip(lo as int));
        } else {
            assert(s@.skip(lo as int) =~= Seq::<char>::empty());
            assert(trim_start_spec(s@.skip(lo as int)) =~= s@.skip(lo as int));
        }
    }
    let mut hi: usize = s.len();
    while hi > lo && space_char(s[hi - 1])
        invariant
            lo <= hi <= s@.len(),
            trim_start_spec(s@) == s@.skip(lo as int),
            lo < s@.len() ==> !is_space_char(s@[lo as int]),
            trim_end_spec(s@.skip(lo as int)) == trim_end_spec(s@.subrange(lo as int, hi as int)),
        decreases hi,
    {
        proof {
            let cur = s@.subrange(lo as int, hi as int);
            assert(cur[cur.len() - 1] == s@[hi - 1]);
            assert(cur.take(cur.len() - 1) =~= s@.subrange(lo as int, hi - 1 as int));
        }
        hi = hi - 1;
    }
    proof {
        let cur = s@.subrange(lo as int, hi as int);
        if hi > lo {
            assert(cur[cur.len() - 1] == s@[hi - 1]);
            assert(trim_end_spec(cur) == cur);
        } else {
            assert(cur =~= Seq::<char>::empty());
            assert(trim_end_spec(cur) == cur);
        }
        assert(s@.skip(lo as int) =~= s@.subrange(lo as int, s@.len() as int));
    }
    let mut out: Vec<char> = Vec::new();
    let mut i: usize = lo;
    while i < hi
        invariant
            lo <= i <= hi <= s@.len(),
            out@ == s@.subrange(lo as int, i as int),
        decreases hi - i,
    {
        out.push(s[i]);
        proof {
            assert(out@ =~= s@.subrange(lo as int, i + 1 as int));
        }
        i = i + 1;
    }
    out
}

/// Bridges the deep view of a list of texts to the views of its entries.
pub proof fn lemma_deep_view_is_views(v: &Vec<Vec<char>>)
    ensures
        v.deep_view().len() == v@.len(),
        forall|i: int| 0 <= i < v@.len() ==> v.deep_view()[i] == v@[i]@,
{
    assert forall|i: int| 0 <= i < v@.len() implies v.deep_view()[i] == v@[i]@ by {
        assert(v.deep_view()[i] =~= v@[i]@);
    }
}

} // verus!
