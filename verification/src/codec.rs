//! The canonical serialization of a validated change-set, and the parser
//! that inverts it. The encoding is pretty-printed JSON with two-space
//! indentation and the fields in declaration order; the embedded value is
//! the canonical compact text that validation produced. The parser accepts
//! exactly this canonical form, and every rendered document parses back to
//! the document it came from.

use vstd::prelude::*;
use crate::chars::{chars_of, string_of};
use crate::escape::{escaped, push_escaped, scan_string, lemma_escaped_prefix};
use crate::model::{ChangeSetModel, PatchOp, ValidatedChangeSet};

verus! {

/// The word a patch operation kind is written as.
pub open spec fn op_text(op: PatchOp) -> Seq<char> {
    match op {
        PatchOp::Add => "add"@,
        PatchOp::Patch => "patch"@,
        PatchOp::Remove => "remove"@,
        PatchOp::Replace => "replace"@,
    }
}

/// One entry of the source specialization list, indented and quoted.
pub open spec fn item_text(s: Seq<char>) -> Seq<char> {
    "    \""@ + escaped(s) + seq!['"']
}

/// The entries of the source specialization list, separated by commas.
pub open spec fn items_text(items: Seq<Seq<char>>) -> Seq<char>
    decreases items.len(),
{
    if items.len() == 0 {
        Seq::<char>::empty()
    } else if items.len() == 1 {
        item_text(items[0])
    } else {
        item_text(items[0]) + ",\n"@ + items_text(items.skip(1))
    }
}

/// The whole source specialization list, empty or multi-line.
pub open spec fn list_text(items: Seq<Seq<char>>) -> Seq<char> {
    if items.len() == 0 {
        "[]"@
    } else {
        "[\n"@ + items_text(items) + "\n  ]"@
    }
}

/// The closing part of the document, from the end of the value text on.
pub open spec fn bool_suffix(published: bool) -> Seq<char> {
    if published {
        "\n        }\n      ]\n    }\n  ],\n  \"published\": true\n}"@
    } else {
        "\n        }\n      ]\n    }\n  ],\n  \"published\": false\n}"@
    }
}

// The canonical text, written as nested tails so that the parser can peel
// one layer at a time: each `r_*` function is what remains of the document
// from some boundary on.
pub open spec fn r_value(m: ChangeSetModel) -> Seq<char> {
    m.value_text + bool_suffix(m.published)
}

pub open spec fn r_afterpath(m: ChangeSetModel) -> Seq<char> {
    ",\n          \"value\": "@ + r_value(m)
}

pub open spec fn r_path(m: ChangeSetModel) -> Seq<char> {
    (escaped(m.path) + seq!['"']) + r_afterpath(m)
}

pub open spec fn r_afterop(m: ChangeSetModel) -> Seq<char> {
    "\",\n          \"path\": \""@ + r_path(m)
}

pub open spec fn r_op(m: ChangeSetModel) -> Seq<char> {
    op_text(m.op) + r_afterop(m)
}

pub open spec fn r_afterbk(m: ChangeSetModel) -> Seq<char> {
    ",\n      \"op\": \"patch\",\n      \"data\": [\n        {\n          \"op\": \""@ + r_op(m)
}

pub open spec fn r_bk(m: ChangeSetModel) -> Seq<char> {
    (escaped(m.block_key) + seq!['"']) + r_afterbk(m)
}

pub open spec fn r_afterlist(m: ChangeSetModel) -> Seq<char> {
    ",\n  \"operations\": [\n    {\n      \"blockKey\": \""@ + r_bk(m)
}

pub open spec fn r_list(m: ChangeSetModel) -> Seq<char> {
    list_text(m.source_specialization) + r_afterlist(m)
}

pub open spec fn r_aftername(m: ChangeSetModel) -> Seq<char> {
    ",\n  \"sourceSpecialization\": "@ + r_list(m)
}

pub open spec fn r_name(m: ChangeSetModel) -> Seq<char> {
    (escaped(m.name) + seq!['"']) + r_aftername(m)
}

/// The canonical rendering of a validated change-set document.
pub open spec fn render_text(m: ChangeSetModel) -> Seq<char> {
    "{\n  \"name\": \""@ + r_name(m)
}

proof fn lemma_items_text_snoc(items: Seq<Seq<char>>, x: Seq<char>)
    ensures
        items.len() == 0 ==> items_text(items.push(x)) == item_text(x),
        items.len() > 0 ==> items_text(items.push(x)) == items_text(items) + ",\n"@ + item_text(
            x,
        ),
    decreases items.len(),
{
    let p = items.push(x);
    if items.len() == 0 {
        assert(p.len() == 1);
        assert(p[0] == x);
    } else if items.len() == 1 {
        assert(p.len() == 2);
        assert(p[0] == items[0]);
        assert(p.skip(1) =~= seq![x]);
        assert(items_text(seq![x]) == item_text(x));
    } else {
        lemma_items_text_snoc(items.skip(1), x);
        assert(p.skip(1) =~= items.skip(1).push(x));
        assert(p[0] == items[0]);
        assert(items_text(p) == item_text(items[0]) + ",\n"@ + items_text(items.skip(1).push(x)));
        assert(item_text(items[0]) + ",\n"@ + (items_text(items.skip(1)) + ",\n"@ + item_text(x))
            =~= (item_text(items[0]) + ",\n"@ + items_text(items.skip(1))) + ",\n"@ + item_text(
            x,
        ));
    }
}

fn push_chars(out: &mut Vec<char>, v: &Vec<char>)
    ensures
        final(out)@ == old(out)@ + v@,
{
    let n = v.len();
    let mut i: usize = 0;
    proof {
        assert(out@ =~= out@ + v@.take(0));
    }
    while i < n
        invariant
            n == v@.len(),
            i <= n,
            out@ == old(out)@ + v@.take(i as int),
        decreases n - i,
    {
        out.push(v[i]);
        proof {
            assert(old(out)@ + v@.take(i as int) + seq![v@[i as int]] =~= old(out)@ + v@.take(
                i + 1,
            ));
        }
        i = i + 1;
    }
    proof {
        assert(v@.take(n as int) =~= v@);
    }
}

fn push_lit(out: &mut Vec<char>, lit: &str)
    ensures
        final(out)@ == old(out)@ + lit@,
{
    let v = chars_of(lit);
    push_chars(out, &v);
}

fn push_str_field(out: &mut Vec<char>, s: &str)
    ensures
        final(out)@ == old(out)@ + (escaped(s@) + seq!['"']),
{
    let v = chars_of(s);
    push_escaped(out, &v);
    out.push('"');
    proof {
        assert(old(out)@ + escaped(s@) + seq!['"'] =~= old(out)@ + (escaped(s@) + seq!['"']));
    }
}

fn push_list(out: &mut Vec<char>, items: &Vec<String>)
    ensures
        final(out)@ == old(out)@ + list_text(items@.map_values(|s: String| s@)),
{
    let ghost views = items@.map_values(|s: String| s@);
    let n = items.len();
    if n == 0 {
        push_lit(out, "[]");
        return;
    }
    push_lit(out, "[\n");
    let ghost base = out@;
    let mut i: usize = 0;
    proof {
        assert(items_text(views.take(0)) =~= Seq::<char>::empty());
        assert(out@ =~= base + items_text(views.take(0)));
    }
    while i < n
        invariant
            n == items@.len(),
            n > 0,
            i <= n,
            views == items@.map_values(|s: String| s@),
            out@ == base + items_text(views.take(i as int)),
        decreases n - i,
    {
        if i > 0 {
            push_lit(out, ",\n");
        }
        push_lit(out, "    \"");
        push_str_field(out, items[i].as_str());
        proof {
            lemma_items_text_snoc(views.take(i as int), views[i as int]);
            assert(views.take(i + 1) =~= views.take(i as int).push(views[i as int]));
            assert(views[i as int] == items@[i as int]@);
            if i == 0 {
                assert(out@ =~= base + items_text(views.take(i + 1)));
            } else {
                assert(out@ =~= base + items_text(views.take(i + 1)));
            }
        }
        i = i + 1;
    }
    proof {
        assert(views.take(n as int) =~= views);
    }
    push_lit(out, "\n  ]");
    proof {
        assert(out@ =~= old(out)@ + list_text(views));
    }
}

/// Renders a validated document to its canonical text.
#[verifier::rlimit(100)]
pub fn render(d: &ValidatedChangeSet) -> (r: String)
    ensures
        r@ == render_text(d@),
{
    let ghost m = d@;
    let mut out: Vec<char> = Vec::new();
    push_lit(&mut out, "{\n  \"name\": \"");
    let ghost o1 = out@;
    push_str_field(&mut out, d.name.as_str());
    let ghost o2 = out@;
    push_lit(&mut out, ",\n  \"sourceSpecialization\": ");
    let ghost o3 = out@;
    push_list(&mut out, &d.source_specialization);
    let ghost o4 = out@;
    push_lit(&mut out, ",\n  \"operations\": [\n    {\n      \"blockKey\": \"");
    let ghost o5 = out@;
    push_str_field(&mut out, d.block_key.as_str());
    let ghost o6 = out@;
    push_lit(&mut out, ",\n      \"op\": \"patch\",\n      \"data\": [\n        {\n          \"op\": \"");
    let ghost o7 = out@;
    match d.op {
        PatchOp::Add => push_lit(&mut out, "add"),
        PatchOp::Patch => push_lit(&mut out, "patch"),
        PatchOp::Remove => push_lit(&mut out, "remove"),
        PatchOp::Replace => push_lit(&mut out, "replace"),
    }
    let ghost o8 = out@;
    proof {
        assert(o8 == o7 + op_text(m.op));
    }
    push_lit(&mut out, "\",\n          \"path\": \"");
    let ghost o9 = out@;
    push_str_field(&mut out, d.path.as_str());
    let ghost o10 = out@;
    push_lit(&mut out, ",\n          \"value\": ");
    let ghost o11 = out@;
    let value_chars = chars_of(d.value_text.as_str());
    push_chars(&mut out, &value_chars);
    let ghost o12 = out@;
    if d.published {
        push_lit(&mut out, "\n        }\n      ]\n    }\n  ],\n  \"published\": true\n}");
    } else {
        push_lit(&mut out, "\n        }\n      ]\n    }\n  ],\n  \"published\": false\n}");
    }
    proof {
        assert(out@ == o12 + bool_suffix(m.published));
        assert(out@ =~= o11 + r_value(m));
        assert(o11 + r_value(m) =~= o10 + r_afterpath(m));
        assert(o10 + r_afterpath(m) =~= o9 + r_path(m));
        assert(o9 + r_path(m) =~= o8 + r_afterop(m));
        assert(o8 + r_afterop(m) =~= o7 + r_op(m));
        assert(o7 + r_op(m) =~= o6 + r_afterbk(m));
        assert(o6 + r_afterbk(m) =~= o5 + r_bk(m));
        assert(o5 + r_bk(m) =~= o4 + r_afterlist(m));
        assert(o4 + r_afterlist(m) =~= o3 + r_list(m));
        assert(o3 + r_list(m) =~= o2 + r_aftername(m));
        assert(o2 + r_aftername(m) =~= o1 + r_name(m));
        assert(o1 + r_name(m) =~= render_text(m));
        assert(out@ == render_text(d@));
    }
    string_of(&out)
}


// ---------------------------------------------------------------------------
// Parsing
// ---------------------------------------------------------------------------

proof fn lemma_subrange_to_skip(v: Seq<char>, start: int, k: int, w: Seq<char>)
    requires
        0 <= start <= k <= v.len(),
        v.subrange(start, k) == w,
    ensures
        v.skip(start) == w + v.skip(k),
{
    assert(v.skip(start) =~= v.subrange(start, k) + v.skip(k));
}

/// Peeling a known literal off the front of a tail of `v`.
proof fn lemma_skip_lit(v: Seq<char>, pos: int, lit: Seq<char>, rest: Seq<char>)
    requires
        0 <= pos <= v.len(),
        v.skip(pos) == lit + rest,
    ensures
        pos + lit.len() <= v.len(),
        v.subrange(pos, pos + lit.len()) == lit,
        v.skip(pos + lit.len()) == rest,
{
    assert(v.skip(pos).len() == lit.len() + rest.len());
    assert(pos + lit.len() <= v.len());
    assert(v.skip(pos).take(lit.len() as int) =~= lit);
    assert(v.subrange(pos, pos + lit.len()) =~= v.skip(pos).take(lit.len() as int));
    assert(v.skip(pos + lit.len()) =~= v.skip(pos).skip(lit.len() as int));
    assert(v.skip(pos).skip(lit.len() as int) =~= rest);
}

/// What the scanner found at `pos` is the one string whose quoted escaping
/// stands there.
proof fn lemma_scan_pin(v: Seq<char>, pos: int, end: int, dec: Seq<char>, t: Seq<char>, rest: Seq<char>)
    requires
        0 <= pos <= end <= v.len(),
        v.subrange(pos, end) == escaped(dec) + seq!['"'],
        v.skip(pos) == (escaped(t) + seq!['"']) + rest,
    ensures
        dec == t,
        end == pos + (escaped(t) + seq!['"']).len(),
        v.skip(end) == rest,
{
    lemma_subrange_to_skip(v, pos, end, escaped(dec) + seq!['"']);
    assert((escaped(dec) + seq!['"']) + v.skip(end) =~= escaped(dec) + seq!['"'] + v.skip(end));
    assert((escaped(t) + seq!['"']) + rest =~= escaped(t) + seq!['"'] + rest);
    lemma_escaped_prefix(dec, t, v.skip(end), rest);
    assert(v.skip(end).len() == rest.len());
}

/// Whether the characters of `lit` stand at `start` in `v`; on success the
/// position after them.
fn expect_lit(v: &Vec<char>, start: usize, lit: &str) -> (r: Option<usize>)
    requires
        start <= v@.len(),
    ensures
        (r matches Some(e) ==> start <= e <= v@.len() && e == start + lit@.len() && v@.subrange(
            start as int,
            e as int,
        ) == lit@),
        r is None ==> !(start + lit@.len() <= v@.len() && v@.subrange(
            start as int,
            start + lit@.len(),
        ) == lit@),
{
    let lc = chars_of(lit);
    let n = lc.len();
    let vn = v.len();
    if vn - start < n {
        return None;
    }
    let mut i: usize = 0;
    while i < n
        invariant
            n == lit@.len(),
            lc@ == lit@,
            vn == v@.len(),
            start + n <= vn,
            i <= n,
            forall|j: int| 0 <= j < i ==> v@[start + j] == lit@[j],
        decreases n - i,
    {
        if v[start + i] != lc[i] {
            proof {
                assert(v@[start + i as int] != lit@[i as int]);
                if v@.subrange(start as int, start + lit@.len()) == lit@ {
                    assert(v@.subrange(start as int, start + lit@.len())[i as int] == v@[start
                        + i as int]);
                    assert(false);
                }
            }
            return None;
        }
        i = i + 1;
    }
    proof {
        assert(v@.subrange(start as int, start + n as int) =~= lit@);
    }
    Some(start + n)
}

/// Whether `v` ends with the characters of `lit`.
fn ends_with_lit(v: &Vec<char>, lit: &str) -> (r: bool)
    ensures
        r == (lit@.len() <= v@.len() && v@.subrange(v@.len() - lit@.len(), v@.len() as int)
            == lit@),
{
    let lc = chars_of(lit);
    if lc.len() > v.len() {
        return false;
    }
    match expect_lit(v, v.len() - lc.len(), lit) {
        Some(_) => true,
        None => false,
    }
}

fn copy_range(v: &Vec<char>, a: usize, b: usize) -> (r: Vec<char>)
    requires
        a <= b <= v@.len(),
    ensures
        r@ == v@.subrange(a as int, b as int),
{
    let mut r: Vec<char> = Vec::new();
    let mut i: usize = a;
    while i < b
        invariant
            a <= i <= b <= v@.len(),
            r@ == v@.subrange(a as int, i as int),
        decreases b - i,
    {
        r.push(v[i]);
        proof {
            assert(r@ =~= v@.subrange(a as int, i + 1));
        }
        i = i + 1;
    }
    proof {
        assert(r@ =~= v@.subrange(a as int, b as int));
    }
    r
}

/// Parses the items of a non-empty source specialization list, from the
/// first item's indentation up to and including the closing `]`. Wherever
/// the text from `start` is `items_text(its)` followed by the list
/// terminator, the result is exactly `its` and the position after the
/// terminator.
#[verifier::rlimit(100)]
fn parse_items(v: &Vec<char>, start: usize) -> (r: Option<(Vec<String>, usize)>)
    requires
        start <= v@.len(),
    ensures
        (r matches Some(p) ==> start <= p.1 <= v@.len()),
        forall|its: Seq<Seq<char>>, k: int|
            (its.len() > 0 && start <= k <= v@.len() && v@.subrange(start as int, k) == items_text(
                its,
            ) + "\n  ]"@) ==> (r matches Some(p) && p.0@.map_values(|s: String| s@) == its && p.1
                == k),
    decreases v@.len() - start,
{
    proof {
        reveal_strlit("    \"");
        reveal_strlit(",\n");
        reveal_strlit("\n  ]");
    }
    let r1 = expect_lit(v, start, "    \"");
    if r1.is_none() {
        proof {
            assert forall|its: Seq<Seq<char>>, k: int|
                !(its.len() > 0 && start <= k <= v@.len() && v@.subrange(start as int, k)
                    == items_text(its) + "\n  ]"@) by {
                if its.len() > 0 && start <= k <= v@.len() && v@.subrange(start as int, k)
                    == items_text(its) + "\n  ]"@ {
                    lemma_subrange_to_skip(v@, start as int, k, items_text(its) + "\n  ]"@);
                    lemma_items_head(v@, start as int, k, its);
                    lemma_skip_lit(v@, start as int, "    \""@, items_rest(v@, k, its));
                    assert(false);
                }
            }
        }
        return None;
    }
    let i1 = r1.unwrap();
    let s1 = scan_string(v, i1);
    if s1.is_none() {
        proof {
            assert forall|its: Seq<Seq<char>>, k: int|
                !(its.len() > 0 && start <= k <= v@.len() && v@.subrange(start as int, k)
                    == items_text(its) + "\n  ]"@) by {
                if its.len() > 0 && start <= k <= v@.len() && v@.subrange(start as int, k)
                    == items_text(its) + "\n  ]"@ {
                    lemma_subrange_to_skip(v@, start as int, k, items_text(its) + "\n  ]"@);
                    lemma_items_head(v@, start as int, k, its);
                    lemma_skip_lit(v@, start as int, "    \""@, items_rest(v@, k, its));
                    lemma_skip_lit(
                        v@,
                        i1 as int,
                        escaped(its[0]) + seq!['"'],
                        items_rest2(v@, k, its),
                    );
                    let kk = i1 + (escaped(its[0]) + seq!['"']).len();
                    assert(i1 <= kk <= v@.len() && v@.subrange(i1 as int, kk) == escaped(its[0])
                        + seq!['"']);
                    assert(false);
                }
            }
        }
        return None;
    }
    let (item, i2) = s1.unwrap();
    let r2 = expect_lit(v, i2, ",\n");
    match r2 {
        Some(i3) => {
            match parse_items(v, i3) {
                Some((rest_items, end)) => {
                    let mut items = rest_items;
                    let ghost rold = items@;
                    let s0 = string_of(&item);
                    items.insert(0, s0);
                    proof {
                        assert forall|its: Seq<Seq<char>>, k: int|
                            (its.len() > 0 && start <= k <= v@.len() && v@.subrange(
                                start as int,
                                k,
                            ) == items_text(its) + "\n  ]"@) implies (items@.map_values(
                            |s: String| s@,
                        ) == its && end == k) by {
                            lemma_items_pin_first(v@, start as int, k, its, item@, i1 as int, i2 as int);
                            lemma_items_sep_decides(v@, i2 as int, k, its, true);
                            lemma_skip_lit(v@, i2 as int, ",\n"@, items_rest3(v@, k, its));
                            lemma_skip_lit(
                                v@,
                                i3 as int,
                                items_text(its.skip(1)) + "\n  ]"@,
                                v@.skip(k),
                            );
                            assert(v@.subrange(i3 as int, i3 + (items_text(its.skip(1))
                                + "\n  ]"@).len()) == items_text(its.skip(1)) + "\n  ]"@);
                            assert(i3 + (items_text(its.skip(1)) + "\n  ]"@).len() == k) by {
                                assert(v@.skip(i3 + (items_text(its.skip(1)) + "\n  ]"@).len())
                                    == v@.skip(k));
                                assert(v@.skip(i3 + (items_text(its.skip(1)) + "\n  ]"@).len()).len()
                                    == v@.skip(k).len());
                            }
                            assert(rold.map_values(|s: String| s@) == its.skip(1));
                            assert(items@ == rold.insert(0, s0));
                            rold.insert_ensures(0, s0);
                            assert forall|q: int| 0 <= q < its.len() implies items@.map_values(
                                |s: String| s@,
                            )[q] == its[q] by {
                                if q == 0 {
                                    assert(items@[0] == s0);
                                } else {
                                    assert(items@[q] == rold[q - 1]);
                                    assert(rold.map_values(|s: String| s@)[q - 1] == rold[q - 1]@);
                                    assert(its.skip(1)[q - 1] == its[q]);
                                }
                            }
                            assert(items@.map_values(|s: String| s@) =~= its);
                        }
                    }
                    Some((items, end))
                },
                None => {
                    proof {
                        assert forall|its: Seq<Seq<char>>, k: int|
                            !(its.len() > 0 && start <= k <= v@.len() && v@.subrange(
                                start as int,
                                k,
                            ) == items_text(its) + "\n  ]"@) by {
                            if its.len() > 0 && start <= k <= v@.len() && v@.subrange(
                                start as int,
                                k,
                            ) == items_text(its) + "\n  ]"@ {
                                lemma_items_pin_first(v@, start as int, k, its, item@, i1 as int, i2 as int);
                                lemma_items_sep_decides(v@, i2 as int, k, its, true);
                                lemma_skip_lit(v@, i2 as int, ",\n"@, items_rest3(v@, k, its));
                                lemma_skip_lit(
                                    v@,
                                    i3 as int,
                                    items_text(its.skip(1)) + "\n  ]"@,
                                    v@.skip(k),
                                );
                                let kk = i3 + (items_text(its.skip(1)) + "\n  ]"@).len();
                                assert(i3 <= kk <= v@.len() && v@.subrange(i3 as int, kk)
                                    == items_text(its.skip(1)) + "\n  ]"@);
                                assert(false);
                            }
                        }
                    }
                    None
                },
            }
        },
        None => {
            match expect_lit(v, i2, "\n  ]") {
                Some(i4) => {
                    let items = vec![string_of(&item)];
                    proof {
                        assert forall|its: Seq<Seq<char>>, k: int|
                            (its.len() > 0 && start <= k <= v@.len() && v@.subrange(
                                start as int,
                                k,
                            ) == items_text(its) + "\n  ]"@) implies (items@.map_values(
                            |s: String| s@,
                        ) == its && i4 == k) by {
                            lemma_items_pin_first(v@, start as int, k, its, item@, i1 as int, i2 as int);
                            lemma_items_sep_decides(v@, i2 as int, k, its, false);
                            lemma_skip_lit(v@, i2 as int, "\n  ]"@, v@.skip(k));
                            assert(i2 + 4 == k) by {
                                assert(v@.skip(i2 + ("\n  ]"@).len()) == v@.skip(k));
                                assert(v@.skip(i2 + ("\n  ]"@).len()).len() == v@.skip(k).len());
                            }
                            assert(items@.map_values(|s: String| s@) =~= its);
                        }
                    }
                    Some((items, i4))
                },
                None => {
                    proof {
                        assert forall|its: Seq<Seq<char>>, k: int|
                            !(its.len() > 0 && start <= k <= v@.len() && v@.subrange(
                                start as int,
                                k,
                            ) == items_text(its) + "\n  ]"@) by {
                            if its.len() > 0 && start <= k <= v@.len() && v@.subrange(
                                start as int,
                                k,
                            ) == items_text(its) + "\n  ]"@ {
                                lemma_items_pin_first(v@, start as int, k, its, item@, i1 as int, i2 as int);
                                if its.len() > 1 {
                                    lemma_skip_lit(v@, i2 as int, ",\n"@, items_rest3(v@, k, its));
                                } else {
                                    lemma_skip_lit(v@, i2 as int, "\n  ]"@, v@.skip(k));
                                }
                                assert(false);
                            }
                        }
                    }
                    None
                },
            }
        },
    }
}

/// The tail after the item indentation, when an item list stands at `start`.
spec fn items_rest(v: Seq<char>, k: int, its: Seq<Seq<char>>) -> Seq<char> {
    (escaped(its[0]) + seq!['"']) + items_rest2(v, k, its)
}

/// The tail after the first item's closing quote.
spec fn items_rest2(v: Seq<char>, k: int, its: Seq<Seq<char>>) -> Seq<char> {
    if its.len() == 1 {
        "\n  ]"@ + v.skip(k)
    } else {
        ",\n"@ + items_rest3(v, k, its)
    }
}

/// The tail after the separator following the first item.
spec fn items_rest3(v: Seq<char>, k: int, its: Seq<Seq<char>>) -> Seq<char> {
    (items_text(its.skip(1)) + "\n  ]"@) + v.skip(k)
}

/// An item list starting at `start` begins with the item indentation and
/// then the first item's quoted escaping.
proof fn lemma_items_head(v: Seq<char>, start: int, k: int, its: Seq<Seq<char>>)
    requires
        its.len() > 0,
        0 <= start <= k <= v.len(),
        v.skip(start) == (items_text(its) + "\n  ]"@) + v.skip(k),
    ensures
        v.skip(start) == "    \""@ + items_rest(v, k, its),
{
    if its.len() == 1 {
        assert(items_text(its) == item_text(its[0]));
        assert((("    \""@ + escaped(its[0]) + seq!['"']) + "\n  ]"@) + v.skip(k) =~= "    \""@
            + ((escaped(its[0]) + seq!['"']) + ("\n  ]"@ + v.skip(k))));
    } else {
        assert(items_text(its) == item_text(its[0]) + ",\n"@ + items_text(its.skip(1)));
        assert(((("    \""@ + escaped(its[0]) + seq!['"']) + ",\n"@ + items_text(its.skip(1)))
            + "\n  ]"@) + v.skip(k) =~= "    \""@ + ((escaped(its[0]) + seq!['"']) + (",\n"@
            + ((items_text(its.skip(1)) + "\n  ]"@) + v.skip(k)))));
    }
}

/// What the scanner found as the first item is the first entry of any list
/// standing at `start`, and the positions line up.
proof fn lemma_items_pin_first(
    v: Seq<char>,
    start: int,
    k: int,
    its: Seq<Seq<char>>,
    item: Seq<char>,
    i1: int,
    i2: int,
)
    requires
        its.len() > 0,
        0 <= start <= k <= v.len(),
        v.subrange(start, k) == items_text(its) + "\n  ]"@,
        0 <= start <= i1 <= i2 <= v.len(),
        i1 == start + "    \""@.len(),
        v.subrange(start, i1) == "    \""@,
        v.subrange(i1, i2) == escaped(item) + seq!['"'],
    ensures
        item == its[0],
        v.skip(i2) == items_rest2(v, k, its),
{
    lemma_subrange_to_skip(v, start, k, items_text(its) + "\n  ]"@);
    lemma_items_head(v, start, k, its);
    lemma_skip_lit(v, start, "    \""@, items_rest(v, k, its));
    lemma_scan_pin(v, i1, i2, item, its[0], items_rest2(v, k, its));
}

/// Whether the separator matched after the first item decides whether more
/// items follow.
proof fn lemma_items_sep_decides(v: Seq<char>, i2: int, k: int, its: Seq<Seq<char>>, sep: bool)
    requires
        its.len() > 0,
        0 <= i2 <= v.len(),
        0 <= k <= v.len(),
        v.skip(i2) == items_rest2(v, k, its),
        sep ==> i2 + (",\n"@).len() <= v.len() && v.subrange(i2, i2 + (",\n"@).len()) == ",\n"@,
        !sep ==> !(i2 + (",\n"@).len() <= v.len() && v.subrange(i2, i2 + (",\n"@).len())
            == ",\n"@),
    ensures
        sep <==> its.len() > 1,
{
    reveal_strlit(",\n");
    reveal_strlit("\n  ]");
    if its.len() > 1 {
        lemma_skip_lit(v, i2, ",\n"@, items_rest3(v, k, its));
        assert(sep);
    } else {
        lemma_skip_lit(v, i2, "\n  ]"@, v.skip(k));
        if sep {
            assert(v.subrange(i2, i2 + (",\n"@).len())[0] == v[i2]);
            assert(v.subrange(i2, i2 + ("\n  ]"@).len())[0] == v[i2]);
            assert(false);
        }
    }
}


/// A rendered document ends with the suffix for its published flag.
#[verifier::rlimit(100)]
proof fn lemma_render_suffix(v: Seq<char>, m: ChangeSetModel)
    requires
        v == render_text(m),
    ensures
        bool_suffix(m.published).len() <= v.len(),
        v.subrange(v.len() - bool_suffix(m.published).len(), v.len() as int) == bool_suffix(
            m.published,
        ),
{
    let suf = bool_suffix(m.published);
    let p1 = "{\n  \"name\": \""@;
    assert(p1 + ((escaped(m.name) + seq!['"']) + r_aftername(m)) =~= (p1 + (escaped(m.name)
        + seq!['"'])) + r_aftername(m));
    let p2 = p1 + (escaped(m.name) + seq!['"']);
    assert(p2 + (",\n  \"sourceSpecialization\": "@ + r_list(m)) =~= (p2
        + ",\n  \"sourceSpecialization\": "@) + r_list(m));
    let p3 = p2 + ",\n  \"sourceSpecialization\": "@;
    assert(p3 + (list_text(m.source_specialization) + r_afterlist(m)) =~= (p3 + list_text(
        m.source_specialization,
    )) + r_afterlist(m));
    let p4 = p3 + list_text(m.source_specialization);
    assert(p4 + (",\n  \"operations\": [\n    {\n      \"blockKey\": \""@ + r_bk(m)) =~= (p4
        + ",\n  \"operations\": [\n    {\n      \"blockKey\": \""@) + r_bk(m));
    let p5 = p4 + ",\n  \"operations\": [\n    {\n      \"blockKey\": \""@;
    assert(p5 + ((escaped(m.block_key) + seq!['"']) + r_afterbk(m)) =~= (p5 + (escaped(
        m.block_key,
    ) + seq!['"'])) + r_afterbk(m));
    let p6 = p5 + (escaped(m.block_key) + seq!['"']);
    assert(p6 + (",\n      \"op\": \"patch\",\n      \"data\": [\n        {\n          \"op\": \""@
        + r_op(m)) =~= (p6
        + ",\n      \"op\": \"patch\",\n      \"data\": [\n        {\n          \"op\": \""@)
        + r_op(m));
    let p7 = p6 + ",\n      \"op\": \"patch\",\n      \"data\": [\n        {\n          \"op\": \""@;
    assert(p7 + (op_text(m.op) + r_afterop(m)) =~= (p7 + op_text(m.op)) + r_afterop(m));
    let p8 = p7 + op_text(m.op);
    assert(p8 + ("\",\n          \"path\": \""@ + r_path(m)) =~= (p8
        + "\",\n          \"path\": \""@) + r_path(m));
    let p9 = p8 + "\",\n          \"path\": \""@;
    assert(p9 + ((escaped(m.path) + seq!['"']) + r_afterpath(m)) =~= (p9 + (escaped(m.path)
        + seq!['"'])) + r_afterpath(m));
    let p10 = p9 + (escaped(m.path) + seq!['"']);
    assert(p10 + (",\n          \"value\": "@ + r_value(m)) =~= (p10 + ",\n          \"value\": "@)
        + r_value(m));
    let p11 = p10 + ",\n          \"value\": "@;
    assert(p11 + (m.value_text + suf) =~= (p11 + m.value_text) + suf);
    let p12 = p11 + m.value_text;
    assert(v == p12 + suf);
    assert(v.subrange(p12.len() as int, v.len() as int) =~= suf);
}

/// Parses the name field and what precedes it. Wherever the whole text is a
/// rendered document, the name and the position of the list part are pinned.
#[verifier::rlimit(100)]
fn parse_name_part(v: &Vec<char>) -> (r: Option<(Vec<char>, usize)>)
    ensures
        (r matches Some(p) ==> p.1 <= v@.len()),
        forall|m: ChangeSetModel| v@ == render_text(m) ==> (r matches Some(p) && m.name == p.0@
            && v@.skip(p.1 as int) == r_list(m)),
{
    let r1 = expect_lit(v, 0, "{\n  \"name\": \"");
    if r1.is_none() {
        proof {
            assert forall|m: ChangeSetModel| v@ != render_text(m) by {
                if v@ == render_text(m) {
                    assert(v@.skip(0) =~= v@);
                    lemma_skip_lit(v@, 0, "{\n  \"name\": \""@, r_name(m));
                    assert(false);
                }
            }
        }
        return None;
    }
    let i1 = r1.unwrap();
    proof {
        assert forall|m: ChangeSetModel| v@ == render_text(m) implies v@.skip(i1 as int) == r_name(
            m,
        ) by {
            assert(v@.skip(0) =~= v@);
            lemma_skip_lit(v@, 0, "{\n  \"name\": \""@, r_name(m));
        }
    }
    let s1 = scan_string(v, i1);
    if s1.is_none() {
        proof {
            assert forall|m: ChangeSetModel| v@ != render_text(m) by {
                if v@ == render_text(m) {
                    lemma_skip_lit(v@, i1 as int, escaped(m.name) + seq!['"'], r_aftername(m));
                    let kk = i1 + (escaped(m.name) + seq!['"']).len();
                    assert(i1 <= kk <= v@.len() && v@.subrange(i1 as int, kk) == escaped(m.name)
                        + seq!['"']);
                    assert(false);
                }
            }
        }
        return None;
    }
    let (namev, i2) = s1.unwrap();
    proof {
        assert forall|m: ChangeSetModel| v@ == render_text(m) implies (m.name == namev@
            && v@.skip(i2 as int) == r_aftername(m)) by {
            lemma_scan_pin(v@, i1 as int, i2 as int, namev@, m.name, r_aftername(m));
        }
    }
    let r2 = expect_lit(v, i2, ",\n  \"sourceSpecialization\": ");
    if r2.is_none() {
        proof {
            assert forall|m: ChangeSetModel| v@ != render_text(m) by {
                if v@ == render_text(m) {
                    lemma_skip_lit(v@, i2 as int, ",\n  \"sourceSpecialization\": "@, r_list(m));
                    assert(false);
                }
            }
        }
        return None;
    }
    let i3 = r2.unwrap();
    proof {
        assert forall|m: ChangeSetModel| v@ == render_text(m) implies v@.skip(i3 as int) == r_list(
            m,
        ) by {
            lemma_skip_lit(v@, i2 as int, ",\n  \"sourceSpecialization\": "@, r_list(m));
        }
    }
    Some((namev, i3))
}

/// Parses the source specialization list. Wherever `r_list(m)` stands at
/// `i3`, the list entries and the position after them are pinned.
#[verifier::rlimit(100)]
fn parse_list_part(v: &Vec<char>, i3: usize) -> (r: Option<(Vec<String>, usize)>)
    requires
        i3 <= v@.len(),
    ensures
        (r matches Some(p) ==> p.1 <= v@.len()),
        forall|m: ChangeSetModel| v@.skip(i3 as int) == r_list(m) ==> (r matches Some(p)
            && m.source_specialization == p.0@.map_values(|t: String| t@) && v@.skip(p.1 as int)
            == r_afterlist(m)),
{
    match expect_lit(v, i3, "[]") {
        Some(i4) => {
            let items: Vec<String> = Vec::new();
            proof {
                assert forall|m: ChangeSetModel| v@.skip(i3 as int) == r_list(m) implies (
                m.source_specialization == items@.map_values(|t: String| t@) && v@.skip(i4 as int)
                    == r_afterlist(m)) by {
                    reveal_strlit("[]");
                    reveal_strlit("[\n");
                    if m.source_specialization.len() > 0 {
                        assert(list_text(m.source_specialization) + r_afterlist(m) =~= "[\n"@
                            + ((items_text(m.source_specialization) + "\n  ]"@) + r_afterlist(m)));
                        lemma_skip_lit(
                            v@,
                            i3 as int,
                            "[\n"@,
                            (items_text(m.source_specialization) + "\n  ]"@) + r_afterlist(m),
                        );
                        assert(v@.subrange(i3 as int, i3 + ("[\n"@).len())[1] == v@[i3 + 1]);
                        assert(v@.subrange(i3 as int, i3 + ("[]"@).len())[1] == v@[i3 + 1]);
                        assert(false);
                    }
                    lemma_skip_lit(v@, i3 as int, "[]"@, r_afterlist(m));
                    assert(items@.map_values(|t: String| t@) =~= m.source_specialization);
                }
            }
            Some((items, i4))
        },
        None => {
            let rb = expect_lit(v, i3, "[\n");
            if rb.is_none() {
                proof {
                    assert forall|m: ChangeSetModel| v@.skip(i3 as int) != r_list(m) by {
                        if v@.skip(i3 as int) == r_list(m) {
                            if m.source_specialization.len() == 0 {
                                lemma_skip_lit(v@, i3 as int, "[]"@, r_afterlist(m));
                            } else {
                                assert(list_text(m.source_specialization) + r_afterlist(m)
                                    =~= "[\n"@ + ((items_text(m.source_specialization) + "\n  ]"@)
                                    + r_afterlist(m)));
                                lemma_skip_lit(
                                    v@,
                                    i3 as int,
                                    "[\n"@,
                                    (items_text(m.source_specialization) + "\n  ]"@)
                                        + r_afterlist(m),
                                );
                            }
                            assert(false);
                        }
                    }
                }
                return None;
            }
            let i4 = rb.unwrap();
            let pi = parse_items(v, i4);
            if pi.is_none() {
                proof {
                    assert forall|m: ChangeSetModel| v@.skip(i3 as int) != r_list(m) by {
                        if v@.skip(i3 as int) == r_list(m) {
                            lemma_list_nonempty(v@, i3 as int, m);
                            assert(list_text(m.source_specialization) + r_afterlist(m) =~= "[\n"@
                                + ((items_text(m.source_specialization) + "\n  ]"@) + r_afterlist(
                                m,
                            )));
                            lemma_skip_lit(
                                v@,
                                i3 as int,
                                "[\n"@,
                                (items_text(m.source_specialization) + "\n  ]"@) + r_afterlist(m),
                            );
                            lemma_skip_lit(
                                v@,
                                i4 as int,
                                items_text(m.source_specialization) + "\n  ]"@,
                                r_afterlist(m),
                            );
                            let kk = i4 + (items_text(m.source_specialization) + "\n  ]"@).len();
                            assert(i4 <= kk <= v@.len() && v@.subrange(i4 as int, kk)
                                == items_text(m.source_specialization) + "\n  ]"@);
                            assert(false);
                        }
                    }
                }
                return None;
            }
            let (items, i5) = pi.unwrap();
            proof {
                assert forall|m: ChangeSetModel| v@.skip(i3 as int) == r_list(m) implies (
                m.source_specialization == items@.map_values(|t: String| t@) && v@.skip(i5 as int)
                    == r_afterlist(m)) by {
                    lemma_list_nonempty(v@, i3 as int, m);
                    assert(list_text(m.source_specialization) + r_afterlist(m) =~= "[\n"@
                        + ((items_text(m.source_specialization) + "\n  ]"@) + r_afterlist(m)));
                    lemma_skip_lit(
                        v@,
                        i3 as int,
                        "[\n"@,
                        (items_text(m.source_specialization) + "\n  ]"@) + r_afterlist(m),
                    );
                    lemma_skip_lit(
                        v@,
                        i4 as int,
                        items_text(m.source_specialization) + "\n  ]"@,
                        r_afterlist(m),
                    );
                    let kk = i4 + (items_text(m.source_specialization) + "\n  ]"@).len();
                    assert(i4 <= kk <= v@.len() && v@.subrange(i4 as int, kk) == items_text(
                        m.source_specialization,
                    ) + "\n  ]"@);
                    assert(v@.skip(kk) == r_afterlist(m));
                }
            }
            Some((items, i5))
        },
    }
}

/// In the branch where the empty list did not match, the list is not empty.
proof fn lemma_list_nonempty(v: Seq<char>, i3: int, m: ChangeSetModel)
    requires
        0 <= i3 <= v.len(),
        v.skip(i3) == r_list(m),
        !(i3 + ("[]"@).len() <= v.len() && v.subrange(i3, i3 + ("[]"@).len()) == "[]"@),
    ensures
        m.source_specialization.len() > 0,
{
    if m.source_specialization.len() == 0 {
        lemma_skip_lit(v, i3, "[]"@, r_afterlist(m));
        assert(false);
    }
}

/// Parses the block key, the operation word and the path. Wherever
/// `r_afterlist(m)` stands at `i5`, those fields and the position of the
/// value text are pinned.
#[verifier::rlimit(100)]
fn parse_op_part(v: &Vec<char>, i5: usize) -> (r: Option<(Vec<char>, PatchOp, Vec<char>, usize)>)
    requires
        i5 <= v@.len(),
    ensures
        (r matches Some(p) ==> p.3 <= v@.len()),
        forall|m: ChangeSetModel| v@.skip(i5 as int) == r_afterlist(m) ==> (r matches Some(p)
            && m.block_key == p.0@ && m.op == p.1 && m.path == p.2@ && v@.skip(p.3 as int)
            == r_value(m)),
{
    let r3 = expect_lit(v, i5, ",\n  \"operations\": [\n    {\n      \"blockKey\": \"");
    if r3.is_none() {
        proof {
            assert forall|m: ChangeSetModel| v@.skip(i5 as int) != r_afterlist(m) by {
                if v@.skip(i5 as int) == r_afterlist(m) {
                    lemma_skip_lit(
                        v@,
                        i5 as int,
                        ",\n  \"operations\": [\n    {\n      \"blockKey\": \""@,
                        r_bk(m),
                    );
                    assert(false);
                }
            }
        }
        return None;
    }
    let i6 = r3.unwrap();
    proof {
        assert forall|m: ChangeSetModel| v@.skip(i5 as int) == r_afterlist(m) implies v@.skip(
            i6 as int,
        ) == r_bk(m) by {
            lemma_skip_lit(
                v@,
                i5 as int,
                ",\n  \"operations\": [\n    {\n      \"blockKey\": \""@,
                r_bk(m),
            );
        }
    }
    let s2 = scan_string(v, i6);
    if s2.is_none() {
        proof {
            assert forall|m: ChangeSetModel| v@.skip(i5 as int) != r_afterlist(m) by {
                if v@.skip(i5 as int) == r_afterlist(m) {
                    lemma_skip_lit(v@, i6 as int, escaped(m.block_key) + seq!['"'], r_afterbk(m));
                    let kk = i6 + (escaped(m.block_key) + seq!['"']).len();
                    assert(i6 <= kk <= v@.len() && v@.subrange(i6 as int, kk) == escaped(
                        m.block_key,
                    ) + seq!['"']);
                    assert(false);
                }
            }
        }
        return None;
    }
    let (bkv, i7) = s2.unwrap();
    proof {
        assert forall|m: ChangeSetModel| v@.skip(i5 as int) == r_afterlist(m) implies (m.block_key
            == bkv@ && v@.skip(i7 as int) == r_afterbk(m)) by {
            lemma_scan_pin(v@, i6 as int, i7 as int, bkv@, m.block_key, r_afterbk(m));
        }
    }
    let r4 = expect_lit(
        v,
        i7,
        ",\n      \"op\": \"patch\",\n      \"data\": [\n        {\n          \"op\": \"",
    );
    if r4.is_none() {
        proof {
            assert forall|m: ChangeSetModel| v@.skip(i5 as int) != r_afterlist(m) by {
                if v@.skip(i5 as int) == r_afterlist(m) {
                    lemma_skip_lit(
                        v@,
                        i7 as int,
                        ",\n      \"op\": \"patch\",\n      \"data\": [\n        {\n          \"op\": \""@,
                        r_op(m),
                    );
                    assert(false);
                }
            }
        }
        return None;
    }
    let i8 = r4.unwrap();
    proof {
        assert forall|m: ChangeSetModel| v@.skip(i5 as int) == r_afterlist(m) implies v@.skip(
            i8 as int,
        ) == r_op(m) by {
            lemma_skip_lit(
                v@,
                i7 as int,
                ",\n      \"op\": \"patch\",\n      \"data\": [\n        {\n          \"op\": \""@,
                r_op(m),
            );
        }
    }
    let op: PatchOp;
    let i9: usize;
    match expect_lit(v, i8, "add") {
        Some(j) => {
            op = PatchOp::Add;
            i9 = j;
            proof {
                assert forall|m: ChangeSetModel| v@.skip(i5 as int) == r_afterlist(m) implies (m.op
                    == PatchOp::Add && v@.skip(i9 as int) == r_afterop(m)) by {
                    lemma_op_pin(v@, i8 as int, m, "add"@.len() as int, PatchOp::Add);
                }
            }
        },
        None => {
            match expect_lit(v, i8, "patch") {
                Some(j) => {
                    op = PatchOp::Patch;
                    i9 = j;
                    proof {
                        assert forall|m: ChangeSetModel| v@.skip(i5 as int) == r_afterlist(m)
                            implies (m.op == PatchOp::Patch && v@.skip(i9 as int) == r_afterop(m))
                            by {
                            lemma_op_pin(v@, i8 as int, m, "patch"@.len() as int, PatchOp::Patch);
                        }
                    }
                },
                None => {
                    match expect_lit(v, i8, "remove") {
                        Some(j) => {
                            op = PatchOp::Remove;
                            i9 = j;
                            proof {
                                assert forall|m: ChangeSetModel| v@.skip(i5 as int) == r_afterlist(
                                    m,
                                ) implies (m.op == PatchOp::Remove && v@.skip(i9 as int)
                                    == r_afterop(m)) by {
                                    lemma_op_pin(
                                        v@,
                                        i8 as int,
                                        m,
                                        "remove"@.len() as int,
                                        PatchOp::Remove,
                                    );
                                }
                            }
                        },
                        None => {
                            match expect_lit(v, i8, "replace") {
                                Some(j) => {
                                    op = PatchOp::Replace;
                                    i9 = j;
                                    proof {
                                        assert forall|m: ChangeSetModel| v@.skip(i5 as int)
                                            == r_afterlist(m) implies (m.op == PatchOp::Replace
                                            && v@.skip(i9 as int) == r_afterop(m)) by {
                                            lemma_op_pin(
                                                v@,
                                                i8 as int,
                                                m,
                                                "replace"@.len() as int,
                                                PatchOp::Replace,
                                            );
                                        }
                                    }
                                },
                                None => {
                                    proof {
                                        assert forall|m: ChangeSetModel| v@.skip(i5 as int)
                                            != r_afterlist(m) by {
                                            if v@.skip(i5 as int) == r_afterlist(m) {
                                                lemma_skip_lit(
                                                    v@,
                                                    i8 as int,
                                                    op_text(m.op),
                                                    r_afterop(m),
                                                );
                                                assert(false);
                                            }
                                        }
                                    }
                                    return None;
                                },
                            }
                        },
                    }
                },
            }
        },
    }
    let r5 = expect_lit(v, i9, "\",\n          \"path\": \"");
    if r5.is_none() {
        proof {
            assert forall|m: ChangeSetModel| v@.skip(i5 as int) != r_afterlist(m) by {
                if v@.skip(i5 as int) == r_afterlist(m) {
                    lemma_skip_lit(v@, i9 as int, "\",\n          \"path\": \""@, r_path(m));
                    assert(false);
                }
            }
        }
        return None;
    }
    let i10 = r5.unwrap();
    proof {
        assert forall|m: ChangeSetModel| v@.skip(i5 as int) == r_afterlist(m) implies v@.skip(
            i10 as int,
        ) == r_path(m) by {
            lemma_skip_lit(v@, i9 as int, "\",\n          \"path\": \""@, r_path(m));
        }
    }
    let s3 = scan_string(v, i10);
    if s3.is_none() {
        proof {
            assert forall|m: ChangeSetModel| v@.skip(i5 as int) != r_afterlist(m) by {
                if v@.skip(i5 as int) == r_afterlist(m) {
                    lemma_skip_lit(v@, i10 as int, escaped(m.path) + seq!['"'], r_afterpath(m));
                    let kk = i10 + (escaped(m.path) + seq!['"']).len();
                    assert(i10 <= kk <= v@.len() && v@.subrange(i10 as int, kk) == escaped(m.path)
                        + seq!['"']);
                    assert(false);
                }
            }
        }
        return None;
    }
    let (pathv, i11) = s3.unwrap();
    proof {
        assert forall|m: ChangeSetModel| v@.skip(i5 as int) == r_afterlist(m) implies (m.path
            == pathv@ && v@.skip(i11 as int) == r_afterpath(m)) by {
            lemma_scan_pin(v@, i10 as int, i11 as int, pathv@, m.path, r_afterpath(m));
        }
    }
    let r6 = expect_lit(v, i11, ",\n          \"value\": ");
    if r6.is_none() {
        proof {
            assert forall|m: ChangeSetModel| v@.skip(i5 as int) != r_afterlist(m) by {
                if v@.skip(i5 as int) == r_afterlist(m) {
                    lemma_skip_lit(v@, i11 as int, ",\n          \"value\": "@, r_value(m));
                    assert(false);
                }
            }
        }
        return None;
    }
    let i12 = r6.unwrap();
    proof {
        assert forall|m: ChangeSetModel| v@.skip(i5 as int) == r_afterlist(m) implies v@.skip(
            i12 as int,
        ) == r_value(m) by {
            lemma_skip_lit(v@, i11 as int, ",\n          \"value\": "@, r_value(m));
        }
    }
    Some((bkv, op, pathv, i12))
}

/// Parses the canonical text of a change-set document. Wherever the input
/// is the rendering of a document, the result is exactly that document:
/// together with `render`, decoding a rendered document gives back every
/// field unchanged.
#[verifier::rlimit(100)]
pub fn parse_change_set(s: &str) -> (r: Option<ValidatedChangeSet>)
    ensures
        forall|m: ChangeSetModel| s@ == render_text(m) ==> (r matches Some(doc) && doc@ == m),
{
    let v = chars_of(s);
    let suf_t = "\n        }\n      ]\n    }\n  ],\n  \"published\": true\n}";
    let suf_f = "\n        }\n      ]\n    }\n  ],\n  \"published\": false\n}";
    let st_len = suf_t.unicode_len();
    let sf_len = suf_f.unicode_len();
    let ends_t = ends_with_lit(&v, suf_t);
    let ends_f = ends_with_lit(&v, suf_f);
    if !ends_t && !ends_f {
        proof {
            assert forall|m: ChangeSetModel| v@ != render_text(m) by {
                if v@ == render_text(m) {
                    lemma_render_suffix(v@, m);
                    assert(false);
                }
            }
        }
        return None;
    }
    let published = ends_t;
    let body_end = if ends_t {
        v.len() - st_len
    } else {
        v.len() - sf_len
    };
    proof {
        assert forall|m: ChangeSetModel| v@ == render_text(m) implies (m.published == published
            && body_end == v@.len() - bool_suffix(m.published).len()) by {
            lemma_render_suffix(v@, m);
            reveal_strlit("\n        }\n      ]\n    }\n  ],\n  \"published\": true\n}");
            reveal_strlit("\n        }\n      ]\n    }\n  ],\n  \"published\": false\n}");
            if m.published != published {
                // the text would have to end with both suffixes, which
                // disagree four characters from the end
                let n = v@.len() as int;
                assert(v@.subrange(n - suf_t@.len(), n)[suf_t@.len() - 4] == v@[n - 4]);
                assert(v@.subrange(n - suf_f@.len(), n)[suf_f@.len() - 4] == v@[n - 4]);
                assert(false);
            }
        }
    }
    let np = parse_name_part(&v);
    if np.is_none() {
        return None;
    }
    let (namev, i3) = np.unwrap();
    let lp = parse_list_part(&v, i3);
    if lp.is_none() {
        return None;
    }
    let (items, i5) = lp.unwrap();
    let op_part = parse_op_part(&v, i5);
    if op_part.is_none() {
        return None;
    }
    let (bkv, op, pathv, i12) = op_part.unwrap();
    if body_end < i12 || v.len() < i12 {
        proof {
            assert forall|m: ChangeSetModel| v@ != render_text(m) by {
                if v@ == render_text(m) {
                    lemma_skip_lit(v@, i12 as int, m.value_text, bool_suffix(m.published));
                    assert(false);
                }
            }
        }
        return None;
    }
    let value_chars = copy_range(&v, i12, body_end);
    let value_text = string_of(&value_chars);
    let doc = ValidatedChangeSet {
        name: string_of(&namev),
        source_specialization: items,
        block_key: string_of(&bkv),
        op,
        path: string_of(&pathv),
        value_text,
        published,
    };
    proof {
        assert forall|m: ChangeSetModel| v@ == render_text(m) implies doc@ == m by {
            lemma_skip_lit(v@, i12 as int, m.value_text, bool_suffix(m.published));
            assert(i12 + m.value_text.len() == body_end) by {
                assert(v@.skip(i12 + m.value_text.len()).len() == bool_suffix(m.published).len());
            }
            assert(m.value_text =~= v@.subrange(i12 as int, body_end as int));
            assert(doc@ =~= m);
        }
    }
    Some(doc)
}

/// The word that matched at the start of the op field pins the operation
/// kind of any document whose rendering the whole text is.
proof fn lemma_op_pin(v: Seq<char>, i8: int, m: ChangeSetModel, wlen: int, op: PatchOp)
    requires
        0 <= i8 <= v.len(),
        v.skip(i8) == op_text(m.op) + r_afterop(m),
        wlen == op_text(op).len(),
        i8 + wlen <= v.len(),
        v.subrange(i8, i8 + wlen) == op_text(op),
    ensures
        m.op == op,
        v.skip(i8 + wlen) == r_afterop(m),
{
    reveal_strlit("add");
    reveal_strlit("patch");
    reveal_strlit("remove");
    reveal_strlit("replace");
    lemma_skip_lit(v, i8, op_text(m.op), r_afterop(m));
    if m.op != op {
        assert(v.subrange(i8, i8 + op_text(m.op).len())[0] == v[i8]);
        assert(v.subrange(i8, i8 + wlen)[0] == v[i8]);
        assert(v.subrange(i8, i8 + op_text(m.op).len())[2] == v[i8 + 2]);
        assert(v.subrange(i8, i8 + wlen)[2] == v[i8 + 2]);
        assert(false);
    }
}

} // verus!
