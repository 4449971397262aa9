//! Character sequences: conversions between `&str` and `Vec<char>`, and
//! whitespace trimming of operator input.

use vstd::prelude::*;

verus! {

/// Characters treated as whitespace when trimming.
pub open spec fn is_space(c: char) -> bool {
    c == ' ' || c == '\t' || c == '\n' || c == '\r' || c == '\u{000B}' || c == '\u{000C}'
}

/// `s` with leading whitespace removed.
pub open spec fn trim_start_text(s: Seq<char>) -> Seq<char>
    decreases s.len(),
{
    if s.len() == 0 {
        s
    } else if is_space(s[0]) {
        trim_start_text(s.skip(1))
    } else {
        s
    }
}

/// `s` with trailing whitespace removed.
pub open spec fn trim_end_text(s: Seq<char>) -> Seq<char>
    decreases s.len(),
{
    if s.len() == 0 {
        s
    } else if is_space(s[s.len() - 1]) {
        trim_end_text(s.take(s.len() - 1))
    } else {
        s
    }
}

/// `s` with leading and trailing whitespace removed.
pub open spec fn trimmed(s: Seq<char>) -> Seq<char> {
    trim_end_text(trim_start_text(s))
}

pub fn is_space_char(c: char) -> (r: bool)
    ensures
        r == is_space(c),
{
    c == ' ' || c == '\t' || c == '\n' || c == '\r' || c == '\u{000B}' || c == '\u{000C}'
}

/// The characters of `s`, in order.
pub fn chars_of(s: &str) -> (r: Vec<char>)
    ensures
        r@ == s@,
{
    let n = s.unicode_len();
    let mut r: Vec<char> = Vec::new();
    let mut i: usize = 0;
    while i < n
        invariant
            n == s@.len(),
            i <= n,
            r@ == s@.take(i as int),
        decreases n - i,
    {
        r.push(s.get_char(i));
        i = i + 1;
        proof {
            assert(r@ =~= s@.take(i as int));
        }
    }
    proof {
        assert(r@ =~= s@);
    }
    r
}

/// Relies on `core::str::Chars` through `Iterator::collect`: collecting the
/// characters of a string yields a `String` with exactly those characters.
#[verifier::external_body]
pub fn string_of(v: &Vec<char>) -> (r: String)
    ensures
        r@ == v@,
{
    v.iter().collect()
}

proof fn lemma_trim_start_step(s: Seq<char>, i: int)
    requires
        0 <= i <= s.len(),
        forall|j: int| 0 <= j < i ==> is_space(s[j]),
    ensures
        trim_start_text(s) == trim_start_text(s.skip(i)),
    decreases i,
{
    if i == 0 {
        assert(s.skip(0) =~= s);
    } else {
        lemma_trim_start_step(s, i - 1);
        assert(s.skip(i - 1)[0] == s[i - 1]);
        assert(trim_start_text(s.skip(i - 1)) == trim_start_text(s.skip(i - 1).skip(1)));
        assert(s.skip(i - 1).skip(1) =~= s.skip(i));
    }
}

proof fn lemma_trim_start_all_space(s: Seq<char>)
    requires
        forall|j: int| 0 <= j < s.len() ==> is_space(s[j]),
    ensures
        trim_start_text(s).len() == 0,
    decreases s.len(),
{
    if s.len() > 0 {
        lemma_trim_start_all_space(s.skip(1));
    }
}

proof fn lemma_trim_end_step(s: Seq<char>, i: int)
    requires
        0 <= i <= s.len(),
        forall|j: int| i <= j < s.len() ==> is_space(s[j]),
    ensures
        trim_end_text(s) == trim_end_text(s.take(i)),
    decreases s.len() - i,
{
    if i == s.len() {
        assert(s.take(i) =~= s);
    } else {
        lemma_trim_end_step(s, i + 1);
        let t = s.take(i + 1);
        assert(t[i] == s[i]);
        assert(is_space(t[t.len() - 1]));
        assert(trim_end_text(t) == trim_end_text(t.take(t.len() - 1)));
        assert(t.take(t.len() - 1) =~= s.take(i));
    }
}

/// The trimmed form of `v`.
pub fn trim_chars(v: &Vec<char>) -> (r: Vec<char>)
    ensures
        r@ == trimmed(v@),
{
    let n = v.len();
    let mut a: usize = 0;
    while a < n && is_space_char(v[a])
        invariant
            n == v@.len(),
            a <= n,
            forall|j: int| 0 <= j < a ==> is_space(v@[j]),
        decreases n - a,
    {
        a = a + 1;
    }
    proof {
        lemma_trim_start_step(v@, a as int);
        if a == n {
            assert(v@.skip(a as int) =~= Seq::<char>::empty());
        }
        assert(trim_start_text(v@) == v@.skip(a as int));
    }
    // from here on, v@[a] is not a space (or a == n) and trim_start_text(v@) == v@.skip(a)
    let mut b: usize = n;
    while b > a && is_space_char(v[b - 1])
        invariant
            n == v@.len(),
            a <= b <= n,
            a < n ==> !is_space(v@[a as int]),
            forall|j: int| b <= j < n ==> is_space(v@[j]),
        decreases b,
    {
        b = b - 1;
    }
    let ghost t = v@.skip(a as int);
    proof {
        lemma_trim_end_step(t, b - a);
        assert(trim_end_text(t) == trim_end_text(t.take(b - a)));
        assert(t.take(b - a) =~= v@.subrange(a as int, b as int));
        if b > a {
            assert(!is_space(t.take(b - a)[b - a - 1]));
            assert(trim_end_text(t.take(b - a)) == t.take(b - a));
        } else {
            assert(t.take(b - a) =~= Seq::<char>::empty());
        }
    }
    let mut r: Vec<char> = Vec::new();
    let mut i: usize = a;
    while i < b
        invariant
            a <= i <= b <= n,
            n == v@.len(),
            r@ == v@.subrange(a as int, i as int),
        decreases b - i,
    {
        r.push(v[i]);
        i = i + 1;
        proof {
            assert(r@ =~= v@.subrange(a as int, i as int));
        }
    }
    proof {
        assert(r@ == trimmed(v@));
    }
    r
}

/// Whether `v` is empty after trimming.
pub fn is_blank(v: &Vec<char>) -> (r: bool)
    ensures
        r == (trimmed(v@).len() == 0),
{
    let t = trim_chars(v);
    t.len() == 0
}

} // verus!
