//! JSON string escaping for the canonical encoding, and the matching
//! scanner. The escaping is canonical: `"` and `\` get two-character
//! escapes, control characters get `\u00xy` with lowercase hex digits,
//! everything else stands for itself. The scanner accepts exactly this
//! canonical form, which makes the encoding of a string unique.

use vstd::prelude::*;

verus! {

/// The lowercase hexadecimal digit for `d`.
pub open spec fn hex_char(d: int) -> char {
    if d == 0 { '0' }
    else if d == 1 { '1' }
    else if d == 2 { '2' }
    else if d == 3 { '3' }
    else if d == 4 { '4' }
    else if d == 5 { '5' }
    else if d == 6 { '6' }
    else if d == 7 { '7' }
    else if d == 8 { '8' }
    else if d == 9 { '9' }
    else if d == 10 { 'a' }
    else if d == 11 { 'b' }
    else if d == 12 { 'c' }
    else if d == 13 { 'd' }
    else if d == 14 { 'e' }
    else { 'f' }
}

/// How a single character is written inside a JSON string.
pub open spec fn escape_unit(c: char) -> Seq<char> {
    if c == '"' {
        seq!['\\', '"']
    } else if c == '\\' {
        seq!['\\', '\\']
    } else if (c as u32) < 32 {
        seq!['\\', 'u', '0', '0', hex_char(c as u32 as int / 16), hex_char(c as u32 as int % 16)]
    } else {
        seq![c]
    }
}

/// How a whole string is written inside a JSON string, character by
/// character.
pub open spec fn escaped(s: Seq<char>) -> Seq<char>
    decreases s.len(),
{
    if s.len() == 0 {
        Seq::<char>::empty()
    } else {
        escape_unit(s[0]) + escaped(s.skip(1))
    }
}

pub proof fn lemma_escaped_snoc(s: Seq<char>, c: char)
    ensures
        escaped(s.push(c)) == escaped(s) + escape_unit(c),
    decreases s.len(),
{
    if s.len() == 0 {
        assert(s.push(c)[0] == c);
        assert(s.push(c).skip(1) =~= Seq::<char>::empty());
        assert(escaped(s.push(c)) == escape_unit(c) + escaped(s.push(c).skip(1)));
        assert(escaped(Seq::<char>::empty()) =~= Seq::<char>::empty());
        assert(escaped(s.push(c)) =~= escaped(s) + escape_unit(c));
    } else {
        lemma_escaped_snoc(s.skip(1), c);
        assert(s.push(c).skip(1) =~= s.skip(1).push(c));
        assert(s.push(c)[0] == s[0]);
        assert(escaped(s.push(c)) == escape_unit(s[0]) + (escaped(s.skip(1)) + escape_unit(c)));
        assert(escape_unit(s[0]) + (escaped(s.skip(1)) + escape_unit(c)) =~= (escape_unit(s[0])
            + escaped(s.skip(1))) + escape_unit(c));
    }
}

/// An escape unit never starts with a bare quote.
proof fn lemma_unit_first(c: char)
    ensures
        escape_unit(c).len() >= 1,
        escape_unit(c)[0] != '"',
{
}

/// One escape unit and what follows it determine the character escaped.
proof fn lemma_unit_det(c1: char, c2: char, r1: Seq<char>, r2: Seq<char>)
    requires
        escape_unit(c1) + r1 == escape_unit(c2) + r2,
    ensures
        c1 == c2,
        r1 == r2,
{
    let u1 = escape_unit(c1);
    let u2 = escape_unit(c2);
    let w = u1 + r1;
    assert(w[0] == u1[0] && w[0] == u2[0]);
    if u1.len() == 1 || u2.len() == 1 {
        // a one-character unit is an ordinary character, never a backslash
        assert(c1 == c2);
    } else {
        assert(w[1] == u1[1] && w[1] == u2[1]);
        if u1.len() == 2 || u2.len() == 2 {
            assert(c1 == c2);
        } else {
            // both are \u00xy units
            assert(w[4] == u1[4] && w[4] == u2[4]);
            assert(w[5] == u1[5] && w[5] == u2[5]);
            let a1 = c1 as u32 as int;
            let a2 = c2 as u32 as int;
            assert(hex_char(a1 / 16) == hex_char(a2 / 16));
            assert(hex_char(a1 % 16) == hex_char(a2 % 16));
            assert(a1 / 16 == a2 / 16 && a1 % 16 == a2 % 16);
            assert(a1 == a2);
            assert(c1 == c2);
        }
    }
    assert(u1 =~= u2);
    assert(r1 =~= (u1 + r1).skip(u1.len() as int));
    assert(r2 =~= (u2 + r2).skip(u2.len() as int));
    assert(r1 == r2);
}

/// Two canonically escaped strings closed by a quote in the same text are
/// the same string.
pub proof fn lemma_escaped_prefix(a: Seq<char>, b: Seq<char>, x: Seq<char>, y: Seq<char>)
    requires
        escaped(a) + seq!['"'] + x == escaped(b) + seq!['"'] + y,
    ensures
        a == b,
        x == y,
    decreases a.len(),
{
    let w = escaped(a) + seq!['"'] + x;
    if a.len() == 0 {
        if b.len() > 0 {
            lemma_unit_first(b[0]);
            assert(w[0] == '"');
            assert(w[0] == escaped(b)[0]);
            assert(escaped(b)[0] == escape_unit(b[0])[0]);
            assert(false);
        }
        assert(escaped(a) =~= Seq::<char>::empty());
        assert(escaped(b) =~= Seq::<char>::empty());
        assert(seq!['"'] + x =~= escaped(a) + seq!['"'] + x);
        assert(seq!['"'] + y =~= escaped(b) + seq!['"'] + y);
        assert(x =~= (seq!['"'] + x).skip(1));
        assert(y =~= (seq!['"'] + y).skip(1));
        assert(x == y);
    } else if b.len() == 0 {
        lemma_unit_first(a[0]);
        assert(w[0] == escape_unit(a[0])[0]);
        assert(w[0] == '"');
        assert(false);
    } else {
        let ra = escaped(a.skip(1)) + seq!['"'] + x;
        let rb = escaped(b.skip(1)) + seq!['"'] + y;
        assert(w =~= escape_unit(a[0]) + ra);
        assert(escaped(b) + seq!['"'] + y =~= escape_unit(b[0]) + rb);
        lemma_unit_det(a[0], b[0], ra, rb);
        lemma_escaped_prefix(a.skip(1), b.skip(1), x, y);
        assert(a =~= seq![a[0]] + a.skip(1));
        assert(b =~= seq![b[0]] + b.skip(1));
    }
}

/// A canonically escaped string aligns on escape units: when some escaped
/// text `escaped(dec)` is a prefix of `escaped(t)` closed by a quote, and
/// the next character is not that quote, the next escape unit of `t` starts
/// exactly there.
pub proof fn lemma_escaped_align(dec: Seq<char>, t: Seq<char>, u: Seq<char>, z: Seq<char>)
    requires
        escaped(dec) + u == escaped(t) + seq!['"'] + z,
        u.len() > 0 ==> u[0] != '"',
    ensures
        dec.len() < t.len(),
        dec == t.take(dec.len() as int),
        u.len() >= escape_unit(t[dec.len() as int]).len(),
        u.take(escape_unit(t[dec.len() as int]).len() as int) == escape_unit(
            t[dec.len() as int],
        ),
        escaped(dec).len() + escape_unit(t[dec.len() as int]).len() <= escaped(t).len(),
    decreases dec.len(),
{
    let w = escaped(dec) + u;
    if dec.len() == 0 {
        // u is the whole right-hand side, so it is not empty
        assert(u =~= escaped(t) + seq!['"'] + z);
        if t.len() == 0 {
            assert(w[0] == '"');
            assert(u[0] == w[0]);
            assert(false);
        }
        let unit = escape_unit(t[0]);
        assert(escaped(t) == unit + escaped(t.skip(1)));
        assert(u =~= w);
        assert forall|i: int| 0 <= i < unit.len() implies u[i] == unit[i] by {
            assert((escaped(t) + seq!['"'] + z)[i] == escaped(t)[i]);
            assert(escaped(t)[i] == unit[i]);
        }
        assert(u.take(unit.len() as int) =~= unit);
        assert(dec =~= t.take(0));
    } else {
        if t.len() == 0 {
            lemma_unit_first(dec[0]);
            assert(w[0] == '"');
            assert(w[0] == escaped(dec)[0]);
            assert(escaped(dec)[0] == escape_unit(dec[0])[0]);
            assert(false);
        }
        let rd = escaped(dec.skip(1)) + u;
        let rt = escaped(t.skip(1)) + seq!['"'] + z;
        assert(w =~= escape_unit(dec[0]) + rd);
        assert(escaped(t) + seq!['"'] + z =~= escape_unit(t[0]) + rt);
        lemma_unit_det(dec[0], t[0], rd, rt);
        lemma_escaped_align(dec.skip(1), t.skip(1), u, z);
        assert(t.skip(1)[dec.len() - 1] == t[dec.len() as int]);
        assert(dec =~= seq![dec[0]] + dec.skip(1));
        assert(t.skip(1).take(dec.len() - 1) =~= t.take(dec.len() as int).skip(1));
        assert(dec == t.take(dec.len() as int));
    }
}

fn hex_digit(d: u32) -> (r: char)
    requires
        d < 16,
    ensures
        r == hex_char(d as int),
{
    if d == 0 { '0' }
    else if d == 1 { '1' }
    else if d == 2 { '2' }
    else if d == 3 { '3' }
    else if d == 4 { '4' }
    else if d == 5 { '5' }
    else if d == 6 { '6' }
    else if d == 7 { '7' }
    else if d == 8 { '8' }
    else if d == 9 { '9' }
    else if d == 10 { 'a' }
    else if d == 11 { 'b' }
    else if d == 12 { 'c' }
    else if d == 13 { 'd' }
    else if d == 14 { 'e' }
    else { 'f' }
}

/// Appends the canonical escaping of `s` to `out`.
pub fn push_escaped(out: &mut Vec<char>, s: &Vec<char>)
    ensures
        final(out)@ == old(out)@ + escaped(s@),
{
    let n = s.len();
    let mut i: usize = 0;
    proof {
        assert(s@.take(0) =~= Seq::<char>::empty());
        assert(out@ =~= out@ + escaped(s@.take(0)));
    }
    while i < n
        invariant
            n == s@.len(),
            i <= n,
            out@ == old(out)@ + escaped(s@.take(i as int)),
        decreases n - i,
    {
        let c = s[i];
        if c == '"' {
            out.push('\\');
            out.push('"');
        } else if c == '\\' {
            out.push('\\');
            out.push('\\');
        } else if (c as u32) < 32 {
            let code = c as u32;
            out.push('\\');
            out.push('u');
            out.push('0');
            out.push('0');
            out.push(hex_digit(code / 16));
            out.push(hex_digit(code % 16));
        } else {
            out.push(c);
        }
        proof {
            lemma_escaped_snoc(s@.take(i as int), s@[i as int]);
            assert(s@.take(i + 1) =~= s@.take(i as int).push(s@[i as int]));
            assert(out@ =~= old(out)@ + escaped(s@.take(i + 1)));
        }
        i = i + 1;
    }
    proof {
        assert(s@.take(n as int) =~= s@);
    }
}

/// Relies on `char::from_u32`: for a code below the surrogate range it
/// returns the character with exactly that code.
#[verifier::external_body]
fn char_of_code(code: u32) -> (r: char)
    requires
        code < 0xD800,
    ensures
        r as u32 == code,
{
    char::from_u32(code).unwrap()
}

/// Scans a canonically escaped string starting at `start` in `v`, up to and
/// including its closing quote. Succeeds exactly on text of the form
/// `escaped(t)` followed by `"`, and then returns `t` and the position after
/// the quote.
pub fn scan_string(v: &Vec<char>, start: usize) -> (r: Option<(Vec<char>, usize)>)
    requires
        start <= v@.len(),
    ensures
        (r matches Some(p) ==> start < p.1 <= v@.len() && v@.subrange(start as int, p.1 as int)
            == escaped(p.0@) + seq!['"']),
        r is None ==> forall|t: Seq<char>, k: int|
            !(start <= k <= v@.len() && v@.subrange(start as int, k) == escaped(t) + seq!['"']),
{
    let n = v.len();
    let mut dec: Vec<char> = Vec::new();
    let mut j: usize = start;
    proof {
        assert(v@.subrange(start as int, start as int) =~= escaped(dec@));
    }
    loop
        invariant
            start <= j <= n,
            n == v@.len(),
            v@.subrange(start as int, j as int) == escaped(dec@),
        decreases n - j,
    {
        if j == n {
            proof {
                lemma_scan_none(v@, start as int, j as int, dec@, true, ' ');
            }
            return None;
        }
        let c = v[j];
        if c == '"' {
            proof {
                lemma_escaped_snoc_quote(v@, start as int, j as int, dec@);
            }
            return Some((dec, j + 1));
        }
        if c == '\\' {
            if n - j < 2 {
                proof {
                    lemma_scan_none(v@, start as int, j as int, dec@, false, c);
                }
                return None;
            }
            let d = v[j + 1];
            if d == '"' {
                proof {
                    assert(v@.subrange(j as int, j + 2) =~= escape_unit('"'));
                    lemma_step(v@, start as int, j as int, dec@, '"');
                }
                dec.push('"');
                j = j + 2;
            } else if d == '\\' {
                proof {
                    assert(v@.subrange(j as int, j + 2) =~= escape_unit('\\'));
                    lemma_step(v@, start as int, j as int, dec@, '\\');
                }
                dec.push('\\');
                j = j + 2;
            } else if d == 'u' {
                if n - j < 6 {
                    proof {
                        lemma_scan_none(v@, start as int, j as int, dec@, false, c);
                    }
                    return None;
                }
                let h0 = v[j + 2];
                let h1 = v[j + 3];
                let h2 = v[j + 4];
                let h3 = v[j + 5];
                let hi: u32 = if h2 == '0' { 0 } else if h2 == '1' { 1 } else { 2 };
                let lo: u32 = hex_value(h3);
                if h0 != '0' || h1 != '0' || hi == 2 || lo == 16 {
                    proof {
                        lemma_scan_none(v@, start as int, j as int, dec@, false, c);
                    }
                    return None;
                }
                let code = hi * 16 + lo;
                let c2 = char_of_code(code);
                proof {
                    assert(code / 16 == hi && code % 16 == lo);
                    assert(hex_char(hi as int) == h2);
                    assert((c2 as u32) < 32 && c2 != '"' && c2 != '\\');
                    assert(v@.subrange(j as int, j + 6) =~= escape_unit(c2));
                    lemma_step(v@, start as int, j as int, dec@, c2);
                }
                dec.push(c2);
                j = j + 6;
            } else {
                proof {
                    lemma_scan_none(v@, start as int, j as int, dec@, false, c);
                }
                return None;
            }
        } else if (c as u32) < 32 {
            proof {
                lemma_scan_none(v@, start as int, j as int, dec@, false, c);
            }
            return None;
        } else {
            proof {
                assert(v@.subrange(j as int, j + 1) =~= escape_unit(c));
                lemma_step(v@, start as int, j as int, dec@, c);
            }
            dec.push(c);
            j = j + 1;
        }
    }
}

fn hex_value(c: char) -> (r: u32)
    ensures
        r <= 16,
        r < 16 ==> c == hex_char(r as int),
        r == 16 ==> forall|d: int| 0 <= d < 16 ==> c != hex_char(d),
{
    if c == '0' { 0 }
    else if c == '1' { 1 }
    else if c == '2' { 2 }
    else if c == '3' { 3 }
    else if c == '4' { 4 }
    else if c == '5' { 5 }
    else if c == '6' { 6 }
    else if c == '7' { 7 }
    else if c == '8' { 8 }
    else if c == '9' { 9 }
    else if c == 'a' { 10 }
    else if c == 'b' { 11 }
    else if c == 'c' { 12 }
    else if c == 'd' { 13 }
    else if c == 'e' { 14 }
    else if c == 'f' { 15 }
    else { 16 }
}

/// Taking the unit of `c` starting at `j` keeps the consumed range equal to
/// the escaping of what was decoded.
proof fn lemma_step(v: Seq<char>, start: int, j: int, dec: Seq<char>, c: char)
    requires
        0 <= start <= j <= v.len(),
        v.subrange(start, j) == escaped(dec),
        j + escape_unit(c).len() <= v.len(),
        v.subrange(j, j + escape_unit(c).len()) == escape_unit(c),
    ensures
        v.subrange(start, j + escape_unit(c).len()) == escaped(dec.push(c)),
{
    lemma_escaped_snoc(dec, c);
    assert(v.subrange(start, j + escape_unit(c).len()) =~= v.subrange(start, j) + v.subrange(
        j,
        j + escape_unit(c).len(),
    ));
}

proof fn lemma_escaped_snoc_quote(v: Seq<char>, start: int, j: int, dec: Seq<char>)
    requires
        0 <= start <= j < v.len(),
        v.subrange(start, j) == escaped(dec),
        v[j] == '"',
    ensures
        v.subrange(start, j + 1) == escaped(dec) + seq!['"'],
{
    assert(v.subrange(start, j + 1) =~= v.subrange(start, j) + seq![v[j]]);
    assert(seq![v[j]] =~= seq!['"']);
}

/// At a point where the scanner gives up, no canonical decomposition from
/// `start` can exist.
proof fn lemma_scan_none(v: Seq<char>, start: int, j: int, dec: Seq<char>, at_end: bool, c: char)
    requires
        0 <= start <= j <= v.len(),
        v.subrange(start, j) == escaped(dec),
        at_end ==> j == v.len(),
        !at_end ==> j < v.len() && v[j] == c && c != '"',
        !at_end && c == '\\' && v.len() - j >= 2 && v[j + 1] == '"' ==> false,
        !at_end && c == '\\' && v.len() - j >= 2 && v[j + 1] == '\\' ==> false,
        !at_end && c == '\\' && v.len() - j >= 6 && v[j + 1] == 'u' && v[j + 2] == '0' && v[j + 3]
            == '0' && (v[j + 4] == '0' || v[j + 4] == '1') && (exists|d: int|
            0 <= d < 16 && v[j + 5] == hex_char(d)) ==> false,
        !at_end && c != '\\' ==> (c as u32) < 32,
    ensures
        forall|t: Seq<char>, k: int|
            !(start <= k <= v.len() && v.subrange(start, k) == escaped(t) + seq!['"']),
{
    assert forall|t: Seq<char>, k: int|
        !(start <= k <= v.len() && v.subrange(start, k) == escaped(t) + seq!['"']) by {
        if start <= k <= v.len() && v.subrange(start, k) == escaped(t) + seq!['"'] {
            let u = v.subrange(j, v.len() as int);
            let z = v.subrange(k, v.len() as int);
            assert(escaped(dec) + u =~= v.subrange(start, v.len() as int));
            assert((escaped(t) + seq!['"']) + z =~= v.subrange(start, v.len() as int));
            assert(escaped(t) + seq!['"'] + z =~= (escaped(t) + seq!['"']) + z);
            if !at_end {
                assert(u[0] == v[j]);
            }
            lemma_escaped_align(dec, t, u, z);
            let tc = t[dec.len() as int];
            let unit = escape_unit(tc);
            assert(u.len() >= unit.len());
            assert(j + unit.len() <= v.len());
            assert forall|i: int| 0 <= i < unit.len() implies v[j + i] == unit[i] by {
                assert(u[i] == v[j + i]);
                assert(u.take(unit.len() as int)[i] == unit[i]);
            }
            if at_end {
                // there is no room for the next unit
                assert(unit.len() >= 1);
                assert(false);
            } else if c == '\\' {
                assert(unit[0] == '\\');
                // a unit starting with a backslash is an escape of length 2 or 6
                assert(tc == '"' || tc == '\\' || (tc as u32) < 32);
                if tc == '"' {
                    assert(v[j + 1] == '"');
                    assert(false);
                } else if tc == '\\' {
                    assert(v[j + 1] == '\\');
                    assert(false);
                } else {
                    let a = tc as u32 as int;
                    assert(v[j + 1] == 'u' && v[j + 2] == '0' && v[j + 3] == '0');
                    assert(v[j + 4] == hex_char(a / 16) && a / 16 < 2);
                    assert(hex_char(0) == '0' && hex_char(1) == '1');
                    assert(v[j + 5] == hex_char(a % 16) && 0 <= a % 16 < 16);
                    assert(false);
                }
            } else {
                // a raw character stands only for itself, and control
                // characters are never written raw
                assert(unit[0] == c);
                assert(tc == c);
                assert((c as u32) < 32);
                assert(unit[0] == '\\');
                assert(false);
            }
        }
    }
}

} // verus!
