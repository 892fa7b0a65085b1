//! The normalizer: repairs a built document so that the zeroth section
//! carries a non-empty title and description and every node carries a
//! non-empty `CUSTOM_ID` unique across the whole document, reporting every
//! repair it makes. Traversal is pre-order, zeroth section first, children
//! before later siblings: the first occurrence of a duplicate identifier is
//! the one that keeps it.

use vstd::prelude::*;

use crate::model::{custom_id_key, document_wf, heading_wf, opt_ids_doc, opt_ids_forest, opt_ids_heading, prop_value_ci, props_wf, Document, Heading, Property, ZerothSection};
use crate::text::{is_ascii_alnum, seq_eq_ci};

verus! {

/// The decimal digit character of a value below ten.
pub open spec fn digit_char(d: int) -> char {
    if d == 0 {
        '0'
    } else if d == 1 {
        '1'
    } else if d == 2 {
        '2'
    } else if d == 3 {
        '3'
    } else if d == 4 {
        '4'
    } else if d == 5 {
        '5'
    } else if d == 6 {
        '6'
    } else if d == 7 {
        '7'
    } else if d == 8 {
        '8'
    } else {
        '9'
    }
}

/// The decimal digits of a non-negative value, most significant first.
pub open spec fn dec_spec(n: int) -> Seq<char>
    decreases n,
    when n >= 0
    via dec_spec_dec
{
    if n < 10 {
        seq![digit_char(n)]
    } else {
        dec_spec(n / 10).push(digit_char(n % 10))
    }
}

#[via_fn]
proof fn dec_spec_dec(n: int) {
    if n >= 10 {
        assert(0 <= n / 10 < n) by (nonlinear_arith)
            requires
                n >= 10,
        ;
    }
}

proof fn lemma_dec_len(n: int)
    requires
        n >= 0,
    ensures
        dec_spec(n).len() >= 1,
        n >= 10 ==> dec_spec(n).len() >= 2,
    decreases n,
{
    if n >= 10 {
        assert(0 <= n / 10 < n) by (nonlinear_arith)
            requires
                n >= 10,
        ;
        lemma_dec_len(n / 10);
    }
}

/// Distinct values print as distinct digit strings.
pub proof fn lemma_dec_injective(a: int, b: int)
    requires
        a >= 0,
        b >= 0,
        dec_spec(a) == dec_spec(b),
    ensures
        a == b,
    decreases a,
{
    if a < 10 && b < 10 {
        assert(dec_spec(a) == seq![digit_char(a)]);
        assert(dec_spec(b) == seq![digit_char(b)]);
        assert(digit_char(a) == dec_spec(a)[0]);
        assert(digit_char(b) == dec_spec(b)[0]);
        lemma_digit_injective(a, b);
    } else if a < 10 {
        lemma_dec_len(b / 10);
        assert(0 <= b / 10 < b) by (nonlinear_arith)
            requires
                b >= 10,
        ;
        lemma_dec_len(b);
    } else if b < 10 {
        assert(0 <= a / 10 < a) by (nonlinear_arith)
            requires
                a >= 10,
        ;
        lemma_dec_len(a);
    } else {
        assert(0 <= a / 10 < a && 0 <= a % 10 < 10 && a == 10 * (a / 10) + a % 10)
            by (nonlinear_arith)
            requires
                a >= 10,
        ;
        assert(0 <= b / 10 < b && 0 <= b % 10 < 10 && b == 10 * (b / 10) + b % 10)
            by (nonlinear_arith)
            requires
                b >= 10,
        ;
        let da = dec_spec(a / 10);
        let db = dec_spec(b / 10);
        assert(dec_spec(a).last() == digit_char(a % 10));
        assert(dec_spec(b).last() == digit_char(b % 10));
        lemma_digit_injective(a % 10, b % 10);
        assert(a % 10 == b % 10);
        assert(da.push(digit_char(a % 10)).drop_last() =~= da);
        assert(db.push(digit_char(b % 10)).drop_last() =~= db);
        assert(da == db);
        lemma_dec_injective(a / 10, b / 10);
        assert(a == b);
    }
}

proof fn lemma_digit_injective(x: int, y: int)
    requires
        0 <= x < 10,
        0 <= y < 10,
        digit_char(x) == digit_char(y),
    ensures
        x == y,
{
}

fn digit(d: usize) -> (r: char)
    requires
        d < 10,
    ensures
        r == digit_char(d as int),
{
    if d == 0 {
        '0'
    } else if d == 1 {
        '1'
    } else if d == 2 {
        '2'
    } else if d == 3 {
        '3'
    } else if d == 4 {
        '4'
    } else if d == 5 {
        '5'
    } else if d == 6 {
        '6'
    } else if d == 7 {
        '7'
    } else if d == 8 {
        '8'
    } else {
        '9'
    }
}

/// Writes a value in decimal.
pub fn dec_chars(n: usize) -> (r: Vec<char>)
    ensures
        r@ == dec_spec(n as int),
    decreases n,
{
    if n < 10 {
        let mut out: Vec<char> = Vec::new();
        out.push(digit(n));
        proof {
            assert(out@ =~= dec_spec(n as int));
        }
        out
    } else {
        proof {
            assert(0 <= n / 10 < n && n % 10 < 10) by (nonlinear_arith)
                requires
                    n >= 10,
            ;
        }
        let mut out = dec_chars(n / 10);
        out.push(digit(n % 10));
        out
    }
}

/// The identifier-friendly image of a text: letters and digits kept,
/// everything else replaced by a dash.
pub open spec fn slug_spec(s: Seq<char>) -> Seq<char> {
    Seq::new(s.len(), |i: int| if is_ascii_alnum(s[i]) { s[i] } else { '-' })
}

pub fn slug(s: &Vec<char>) -> (r: Vec<char>)
    ensures
        r@ == slug_spec(s@),
{
    let mut out: Vec<char> = Vec::new();
    for i in 0..s.len()
        invariant
            out@ =~= slug_spec(s@).take(i as int),
    {
        let c = s[i];
        if crate::text::ascii_alnum(c) {
            out.push(c);
        } else {
            out.push('-');
        }
        proof {
            assert(out@ =~= slug_spec(s@).take(i + 1 as int));
        }
    }
    proof {
        assert(slug_spec(s@).take(s@.len() as int) =~= slug_spec(s@));
    }
    out
}

/// The deterministic identifier candidates: the slug of the base text, a
/// dash, and a disambiguating counter.
pub open spec fn candidate(base: Seq<char>, k: int) -> Seq<char> {
    base + seq!['-'] + dec_spec(k)
}

pub proof fn lemma_candidate_injective(base: Seq<char>, k1: int, k2: int)
    requires
        k1 >= 0,
        k2 >= 0,
        k1 != k2,
    ensures
        candidate(base, k1) != candidate(base, k2),
{
    if candidate(base, k1) == candidate(base, k2) {
        let c1 = candidate(base, k1);
        let c2 = candidate(base, k2);
        let b = base.len() as int;
        assert(c1.len() == b + 1 + dec_spec(k1).len());
        assert(dec_spec(k1) =~= c1.subrange(b + 1, c1.len() as int));
        assert(dec_spec(k2) =~= c2.subrange(b + 1, c2.len() as int));
        lemma_dec_injective(k1, k2);
    }
}

fn make_candidate(base: &Vec<char>, k: usize) -> (r: Vec<char>)
    ensures
        r@ == candidate(base@, k as int),
{
    let mut out = crate::text::copy_chars(base);
    out.push('-');
    let digits = dec_chars(k);
    let ghost front = base@ + seq!['-'];
    proof {
        assert(out@ =~= front);
    }
    let mut i: usize = 0;
    while i < digits.len()
        invariant
            0 <= i <= digits@.len(),
            out@ =~= front + digits@.subrange(0, i as int),
        decreases digits@.len() - i,
    {
        out.push(digits[i]);
        proof {
            assert(out@ =~= front + digits@.subrange(0, i + 1 as int));
        }
        i = i + 1;
    }
    proof {
        assert(digits@.subrange(0, digits@.len() as int) =~= digits@);
        assert(out@ =~= candidate(base@, k as int));
    }
    out
}

/// Is `x` among the entries of `v`?
pub fn contains_list(v: &Vec<Vec<char>>, x: &Vec<char>) -> (r: bool)
    ensures
        r == v.deep_view().contains(x@),
{
    proof {
        crate::text::lemma_deep_view_is_views(v);
    }
    let mut i: usize = 0;
    while i < v.len()
        invariant
            0 <= i <= v@.len(),
            forall|j: int| 0 <= j < v@.len() ==> v.deep_view()[j] == v@[j]@,
            v.deep_view().len() == v@.len(),
            forall|j: int| 0 <= j < i ==> v@[j]@ != x@,
        decreases v@.len() - i,
    {
        if crate::text::chars_eq(&v[i], x) {
            proof {
                assert(v.deep_view()[i as int] == x@);
            }
            return true;
        }
        i = i + 1;
    }
    proof {
        assert(!v.deep_view().contains(x@)) by {
            if v.deep_view().contains(x@) {
                let j = choose|j: int| 0 <= j < v@.len() && v.deep_view()[j] == x@;
                assert(v@[j]@ == x@);
            }
        }
    }
    false
}

/// A fresh identifier: deterministic in the base text and the set of
/// identifiers already used, never one of those, and never empty. At most
/// one more candidate than there are used identifiers needs to be tried.
pub fn fresh_id(base: &Vec<char>, seen: &Vec<Vec<char>>) -> (r: Vec<char>)
    ensures
        !seen.deep_view().contains(r@),
        r@.len() > 0,
        exists|k: int| 0 <= k && r@ == candidate(base@, k),
{
    let n = seen.len();
    let mut k: usize = 0;
    while k < n
        invariant
            0 <= k <= n,
            n == seen@.len(),
            forall|j: int| 0 <= j < k ==> seen.deep_view().contains(candidate(base@, j)),
        decreases n - k,
    {
        let cand = make_candidate(base, k);
        if !contains_list(seen, &cand) {
            proof {
                assert(cand@ == candidate(base@, k as int));
            }
            return cand;
        }
        k = k + 1;
    }
    let cand = make_candidate(base, n);
    if !contains_list(seen, &cand) {
        proof {
            assert(cand@ == candidate(base@, n as int));
        }
        return cand;
    }
    proof {
        let cs = Seq::new((n + 1) as nat, |j: int| candidate(base@, j));
        assert forall|i: int, j: int| 0 <= i < j < cs.len() implies cs[i] != cs[j] by {
            lemma_candidate_injective(base@, i, j);
        }
        assert(cs.no_duplicates());
        cs.unique_seq_to_set();
        let sv = seen.deep_view();
        assert forall|x: Seq<char>| cs.to_set().contains(x) implies sv.to_set().contains(x) by {
            let j = choose|j: int| 0 <= j < cs.len() && cs[j] == x;
            assert(sv.contains(cs[j]));
        }
        assert(cs.to_set().subset_of(sv.to_set()));
        sv.lemma_cardinality_of_set();
        vstd::seq_lib::seq_to_set_is_finite(sv);
        vstd::set_lib::lemma_len_subset(cs.to_set(), sv.to_set());
        assert(false);
    }
    Vec::new()
}

/// The index of the first property whose key matches, case-insensitively.
pub fn find_prop_ci(props: &Vec<Property>, key: &Vec<char>) -> (r: Option<usize>)
    ensures
        match r {
            Option::Some(i) => 0 <= i < props@.len() && seq_eq_ci(props@[i as int].key@, key@)
                && forall|j: int| 0 <= j < i ==> !seq_eq_ci(props@[j].key@, key@),
            Option::None => forall|j: int|
                0 <= j < props@.len() ==> !seq_eq_ci(props@[j].key@, key@),
        },
{
    let mut i: usize = 0;
    while i < props.len()
        invariant
            0 <= i <= props@.len(),
            forall|j: int| 0 <= j < i ==> !seq_eq_ci(props@[j].key@, key@),
        decreases props@.len() - i,
    {
        if crate::text::chars_eq_ci(&props[i].key, key) {
            return Option::Some(i);
        }
        i = i + 1;
    }
    Option::None
}

/// The first case-insensitive match decides the property's value.
proof fn lemma_prop_value_first(props: Seq<Property>, key: Seq<char>, i: int)
    requires
        0 <= i < props.len(),
        seq_eq_ci(props[i].key@, key),
        forall|j: int| 0 <= j < i ==> !seq_eq_ci(props[j].key@, key),
    ensures
        prop_value_ci(props, key) == Option::Some(props[i].value@),
    decreases i,
{
    if i == 0 {
    } else {
        assert(props.skip(1)[i - 1] == props[i]);
        assert forall|j: int| 0 <= j < i - 1 implies !seq_eq_ci(props.skip(1)[j].key@, key) by {
            assert(props.skip(1)[j] == props[j + 1]);
        }
        lemma_prop_value_first(props.skip(1), key, i - 1);
    }
}

/// With no match anywhere, there is no value.
proof fn lemma_prop_value_none(props: Seq<Property>, key: Seq<char>)
    requires
        forall|j: int| 0 <= j < props.len() ==> !seq_eq_ci(props[j].key@, key),
    ensures
        prop_value_ci(props, key) == Option::<Seq<char>>::None,
    decreases props.len(),
{
    if props.len() > 0 {
        assert forall|j: int| 0 <= j < props.skip(1).len() implies !seq_eq_ci(
            props.skip(1)[j].key@,
            key,
        ) by {
            assert(props.skip(1)[j] == props[j + 1]);
        }
        lemma_prop_value_none(props.skip(1), key);
    }
}


/// Every slot holds a present, non-empty identifier.
pub open spec fn ids_ok(ids: Seq<Option<Seq<char>>>) -> bool {
    forall|i: int|
        0 <= i < ids.len() ==> (#[trigger] ids[i] matches Option::Some(v) && v.len() > 0)
}

/// The identifier values, with a missing one standing as the empty text.
pub open spec fn unwrap_ids(ids: Seq<Option<Seq<char>>>) -> Seq<Seq<char>> {
    Seq::new(
        ids.len(),
        |i: int|
            match ids[i] {
                Option::Some(v) => v,
                Option::None => Seq::empty(),
            },
    )
}

/// The two structural guarantees the normalizer establishes: a present,
/// non-empty title and description on the zeroth section, and a present,
/// non-empty, document-wide unique identifier on every node, the zeroth
/// section included.
pub open spec fn normalized(doc: Document) -> bool {
    &&& (doc.zeroth.title matches Option::Some(t) && t@.len() > 0)
    &&& (doc.zeroth.description matches Option::Some(d) && d@.len() > 0)
    &&& ids_ok(opt_ids_doc(doc))
    &&& unwrap_ids(opt_ids_doc(doc)).no_duplicates()
}

pub proof fn lemma_ids_concat(a: Seq<Option<Seq<char>>>, b: Seq<Option<Seq<char>>>)
    ensures
        unwrap_ids(a + b) == unwrap_ids(a) + unwrap_ids(b),
        ids_ok(a + b) == (ids_ok(a) && ids_ok(b)),
{
    assert forall|i: int| 0 <= i < a.len() + b.len() implies unwrap_ids(a + b)[i] == (unwrap_ids(a)
        + unwrap_ids(b))[i] by {
        if i < a.len() {
            assert((a + b)[i] == a[i]);
        } else {
            assert((a + b)[i] == b[i - a.len()]);
        }
    }
    assert(unwrap_ids(a + b) =~= unwrap_ids(a) + unwrap_ids(b));
    if ids_ok(a) && ids_ok(b) {
        assert forall|i: int| 0 <= i < (a + b).len() implies (#[trigger] (a + b)[i]
            matches Option::Some(v) && v.len() > 0) by {
            if i < a.len() {
                assert((a + b)[i] == a[i]);
            } else {
                assert((a + b)[i] == b[i - a.len()]);
            }
        }
    }
    if ids_ok(a + b) {
        assert forall|i: int| 0 <= i < a.len() implies (#[trigger] a[i] matches Option::Some(v)
            && v.len() > 0) by {
            assert((a + b)[i] == a[i]);
        }
        assert forall|i: int| 0 <= i < b.len() implies (#[trigger] b[i] matches Option::Some(v)
            && v.len() > 0) by {
            assert((a + b)[i + a.len()] == b[i]);
        }
    }
}

pub proof fn lemma_opt_ids_forest_push(hs: Seq<Heading>, h: Heading)
    ensures
        opt_ids_forest(hs.push(h)) == opt_ids_forest(hs) + opt_ids_heading(h),
    decreases hs.len(),
{
    if hs.len() == 0 {
        assert(hs.push(h)[0] == h);
        assert(hs.push(h).skip(1) =~= Seq::<Heading>::empty());
        assert(opt_ids_forest(Seq::<Heading>::empty()) == Seq::<Option<Seq<char>>>::empty());
        assert(opt_ids_forest(hs.push(h)) == opt_ids_heading(h) + opt_ids_forest(
            Seq::<Heading>::empty(),
        ));
        assert(opt_ids_forest(hs) == Seq::<Option<Seq<char>>>::empty());
        assert(opt_ids_forest(hs.push(h)) =~= opt_ids_forest(hs) + opt_ids_heading(h));
    } else {
        assert(hs.push(h)[0] == hs[0]);
        assert(hs.push(h).skip(1) =~= hs.skip(1).push(h));
        lemma_opt_ids_forest_push(hs.skip(1), h);
        assert(opt_ids_forest(hs.push(h)) =~= opt_ids_forest(hs) + opt_ids_heading(h));
    }
}

/// A forest whose every slot is in order has every node's own slots in
/// order; contrapositively, one broken node breaks the whole forest.
proof fn lemma_forest_ids_ok_index(hs: Seq<Heading>, i: int)
    requires
        0 <= i < hs.len(),
    ensures
        ids_ok(opt_ids_forest(hs)) ==> ids_ok(opt_ids_heading(hs[i])),
    decreases hs.len(),
{
    lemma_ids_concat(opt_ids_heading(hs[0]), opt_ids_forest(hs.skip(1)));
    if i == 0 {
    } else {
        assert(hs.skip(1)[i - 1] == hs[i]);
        lemma_forest_ids_ok_index(hs.skip(1), i - 1);
    }
}

/// Pushing something new keeps a list duplicate-free.
proof fn lemma_push_no_dup(s: Seq<Seq<char>>, x: Seq<char>)
    requires
        s.no_duplicates(),
        !s.contains(x),
    ensures
        s.push(x).no_duplicates(),
{
    assert forall|i: int, j: int|
        0 <= i < s.push(x).len() && 0 <= j < s.push(x).len() && i != j implies s.push(x)[i]
        != s.push(x)[j] by {
        if i < s.len() && j < s.len() {
        } else if i < s.len() {
            assert(s[i] == s.push(x)[i]);
        } else if j < s.len() {
            assert(s[j] == s.push(x)[j]);
        }
    }
}

/// Looks a property value up by key, case-insensitively.
pub fn get_prop_value_ci(props: &Vec<Property>, key: &Vec<char>) -> (r: Option<Vec<char>>)
    ensures
        match r {
            Option::Some(v) => prop_value_ci(props@, key@) == Option::Some(v@),
            Option::None => prop_value_ci(props@, key@) == Option::<Seq<char>>::None,
        },
{
    match find_prop_ci(props, key) {
        Option::Some(i) => {
            proof {
                lemma_prop_value_first(props@, key@, i as int);
            }
            Option::Some(crate::text::copy_chars(&props[i].value))
        },
        Option::None => {
            proof {
                lemma_prop_value_none(props@, key@);
            }
            Option::None
        },
    }
}

/// Does the list hold pairwise distinct texts?
fn no_dup_check(v: &Vec<Vec<char>>) -> (r: bool)
    ensures
        r == v.deep_view().no_duplicates(),
{
    proof {
        crate::text::lemma_deep_view_is_views(v);
    }
    let mut i: usize = 0;
    while i < v.len()
        invariant
            0 <= i <= v@.len(),
            v.deep_view().len() == v@.len(),
            forall|m: int| 0 <= m < v@.len() ==> v.deep_view()[m] == v@[m]@,
            forall|a: int, b: int| 0 <= a < b < i ==> v@[a]@ != v@[b]@,
        decreases v@.len() - i,
    {
        let mut j: usize = 0;
        while j < i
            invariant
                0 <= j <= i < v@.len(),
                v.deep_view().len() == v@.len(),
                forall|m: int| 0 <= m < v@.len() ==> v.deep_view()[m] == v@[m]@,
                forall|a: int, b: int| 0 <= a < b < i ==> v@[a]@ != v@[b]@,
                forall|a: int| 0 <= a < j ==> v@[a]@ != v@[i as int]@,
            decreases i - j,
        {
            if crate::text::chars_eq(&v[j], &v[i]) {
                proof {
                    assert(v.deep_view()[j as int] == v.deep_view()[i as int]);
                }
                return false;
            }
            j = j + 1;
        }
        i = i + 1;
    }
    proof {
        assert forall|a: int, b: int|
            0 <= a < v@.len() && 0 <= b < v@.len() && a != b implies v.deep_view()[a]
            != v.deep_view()[b] by {
            if a < b {
                assert(v@[a]@ != v@[b]@);
            } else {
                assert(v@[b]@ != v@[a]@);
            }
        }
    }
    true
}

/// Collects the identifiers of a subtree onto `ids`, in pre-order; reports
/// whether each node of the subtree holds a present, non-empty identifier.
fn check_heading_ids(h: &Heading, ids: &mut Vec<Vec<char>>) -> (ok: bool)
    ensures
        ok == ids_ok(opt_ids_heading(*h)),
        ok ==> final(ids).deep_view() == old(ids).deep_view() + unwrap_ids(opt_ids_heading(*h)),
    decreases *h,
{
    let ghost entry = ids.deep_view();
    let key = crate::text::text("CUSTOM_ID");
    let own = get_prop_value_ci(&h.properties, &key);
    let ghost ownid = prop_value_ci(h.properties@, custom_id_key());
    let mut bad = false;
    match own {
        Option::Some(v) => {
            if v.len() > 0 {
                ids.push(v);
            } else {
                bad = true;
            }
        },
        Option::None => {
            bad = true;
        },
    }
    proof {
        let whole = opt_ids_heading(*h);
        assert(whole[0] == ownid);
        if bad {
            assert(!ids_ok(whole));
        }
    }
    if bad {
        return false;
    }
    proof {
        crate::text::lemma_deep_view_is_views(ids);
        let pushed = choose|v: Seq<char>| ownid == Option::Some(v) && v.len() > 0;
        assert(ids.deep_view() =~= entry.push(pushed));
        assert(unwrap_ids(seq![ownid]) =~= seq![pushed]);
        assert(ids.deep_view() =~= entry + unwrap_ids(seq![ownid]));
        assert(ids_ok(seq![ownid]));
    }
    let n = h.children.len();
    for i in 0..n
        invariant
            n == h.children@.len(),
            ids_ok(seq![ownid] + opt_ids_forest(h.children@.take(i as int))),
            ids.deep_view() == entry + unwrap_ids(
                seq![ownid] + opt_ids_forest(h.children@.take(i as int)),
            ),
            ownid == prop_value_ci(h.properties@, custom_id_key()),
            entry == old(ids).deep_view(),
        decreases n - i,
    {
        proof {
            assert(h.children@.take(i as int).push(h.children@[i as int]) =~= h.children@.take(
                i + 1 as int,
            ));
        }
        let sub = check_heading_ids(&h.children[i], ids);
        if !sub {
            proof {
                lemma_forest_ids_ok_index(h.children@, i as int);
                lemma_ids_concat(seq![ownid], opt_ids_forest(h.children@));
            }
            return false;
        }
        proof {
            lemma_opt_ids_forest_push(h.children@.take(i as int), h.children@[i as int]);
            lemma_ids_concat(seq![ownid], opt_ids_forest(h.children@.take(i as int)));
            lemma_ids_concat(
                seq![ownid] + opt_ids_forest(h.children@.take(i as int)),
                opt_ids_heading(h.children@[i as int]),
            );
            lemma_ids_concat(seq![ownid], opt_ids_forest(h.children@.take(i + 1 as int)));
            assert((seq![ownid] + opt_ids_forest(h.children@.take(i as int)) + opt_ids_heading(
                h.children@[i as int],
            )) =~= seq![ownid] + opt_ids_forest(h.children@.take(i + 1 as int)));
        }
    }
    proof {
        assert(h.children@.take(n as int) =~= h.children@);
    }
    true
}


/// What the normalizer repaired at one node.
#[derive(Clone, Copy, Debug, PartialEq, Eq, Structural)]
pub enum RepairKind {
    SynthesizedTitle,
    SynthesizedDescription,
    GeneratedId,
    ReplacedDuplicateId,
}

/// One entry of the repair report: the node (by pre-order index, the zeroth
/// section being node zero), what was repaired, and the value before and
/// after.
#[derive(Clone, Debug, PartialEq, Eq)]
pub struct Repair {
    pub kind: RepairKind,
    pub node: usize,
    pub old_value: Option<Vec<char>>,
    pub new_value: Vec<char>,
}

/// The policy inputs of normalization: the placeholders for a missing title
/// and description. Identifier generation is the deterministic slug-counter
/// scheme of [`candidate`].
#[derive(Clone, Debug, PartialEq, Eq)]
pub struct NormalizePolicy {
    pub placeholder_title: Vec<char>,
    pub placeholder_description: Vec<char>,
}


/// The identifier of `b` keeps `a`'s when `a`'s is present, non-empty and
/// not already used by `before`.
pub open spec fn keeps_own_id(a: Heading, b: Heading, before: Seq<Seq<char>>) -> bool {
    let orig = prop_value_ci(a.properties@, custom_id_key());
    (orig matches Option::Some(v) && v.len() > 0 && !before.contains(v)) ==> prop_value_ci(
        b.properties@,
        custom_id_key(),
    ) == orig
}


/// Every entry of a repair report records a non-empty replacement value.
pub open spec fn report_values_ok(rs: Seq<Repair>) -> bool {
    forall|j: int| 0 <= j < rs.len() ==> (#[trigger] rs[j]).new_value@.len() > 0
}

/// Checks the two invariants without changing anything.
pub fn is_normalized(doc: &Document) -> (r: bool)
    ensures
        r == normalized(*doc),
{
    match &doc.zeroth.title {
        Option::Some(t) => {
            if t.len() == 0 {
                return false;
            }
        },
        Option::None => {
            return false;
        },
    }
    match &doc.zeroth.description {
        Option::Some(d) => {
            if d.len() == 0 {
                return false;
            }
        },
        Option::None => {
            return false;
        },
    }
    let mut ids: Vec<Vec<char>> = Vec::new();
    let key = crate::text::text("CUSTOM_ID");
    let ghost zid = prop_value_ci(doc.zeroth.properties@, custom_id_key());
    let own = get_prop_value_ci(&doc.zeroth.properties, &key);
    match own {
        Option::Some(v) => {
            if v.len() == 0 {
                proof {
                    assert(opt_ids_doc(*doc)[0] == zid);
                }
                return false;
            }
            ids.push(v);
        },
        Option::None => {
            proof {
                assert(opt_ids_doc(*doc)[0] == zid);
            }
            return false;
        },
    }
    proof {
        crate::text::lemma_deep_view_is_views(&ids);
        let pushed = choose|v: Seq<char>| zid == Option::Some(v) && v.len() > 0;
        assert(ids.deep_view() =~= Seq::<Seq<char>>::empty().push(pushed));
        assert(unwrap_ids(seq![zid]) =~= seq![pushed]);
        assert(ids.deep_view() =~= unwrap_ids(seq![zid]));
        assert(ids_ok(seq![zid]));
    }
    let n = doc.headings.len();
    for i in 0..n
        invariant
            n == doc.headings@.len(),
            zid == prop_value_ci(doc.zeroth.properties@, custom_id_key()),
            ids_ok(seq![zid] + opt_ids_forest(doc.headings@.take(i as int))),
            ids.deep_view() == unwrap_ids(
                seq![zid] + opt_ids_forest(doc.headings@.take(i as int)),
            ),
            (doc.zeroth.title matches Option::Some(t) && t@.len() > 0),
            (doc.zeroth.description matches Option::Some(d) && d@.len() > 0),
        decreases n - i,
    {
        proof {
            assert(doc.headings@.take(i as int).push(doc.headings@[i as int])
                =~= doc.headings@.take(i + 1 as int));
        }
        let sub = check_heading_ids(&doc.headings[i], &mut ids);
        if !sub {
            proof {
                lemma_forest_ids_ok_index(doc.headings@, i as int);
                lemma_ids_concat(seq![zid], opt_ids_forest(doc.headings@));
            }
            return false;
        }
        proof {
            lemma_opt_ids_forest_push(doc.headings@.take(i as int), doc.headings@[i as int]);
            lemma_ids_concat(seq![zid], opt_ids_forest(doc.headings@.take(i as int)));
            lemma_ids_concat(
                seq![zid] + opt_ids_forest(doc.headings@.take(i as int)),
                opt_ids_heading(doc.headings@[i as int]),
            );
            lemma_ids_concat(seq![zid], opt_ids_forest(doc.headings@.take(i + 1 as int)));
            assert((seq![zid] + opt_ids_forest(doc.headings@.take(i as int)) + opt_ids_heading(
                doc.headings@[i as int],
            )) =~= seq![zid] + opt_ids_forest(doc.headings@.take(i + 1 as int)));
        }
    }
    proof {
        assert(doc.headings@.take(n as int) =~= doc.headings@);
    }
    no_dup_check(&ids)
}


/// Case-insensitive equality of characters is transitive: a lower-case
/// letter sits exactly 32 scalar values above its upper-case form, and the
/// two ranges do not meet.
proof fn lemma_char_ci_trans(x: char, y: char, z: char)
    requires
        crate::text::char_eq_ci(x, y),
        crate::text::char_eq_ci(y, z),
    ensures
        crate::text::char_eq_ci(x, z),
{
    if x == y || y == z {
    } else if (x as u32) + 32 == (y as u32) && 'A' <= x && x <= 'Z' {
        assert((y as u32) >= 97);
        assert(!('A' <= y && y <= 'Z'));
    } else {
        assert((x as u32) >= 97);
        assert(!('A' <= x && x <= 'Z'));
    }
}


/// Case-insensitive equality of texts is symmetric.
proof fn lemma_seq_ci_sym(a: Seq<char>, b: Seq<char>)
    requires
        seq_eq_ci(a, b),
    ensures
        seq_eq_ci(b, a),
{
    assert forall|i: int| 0 <= i < b.len() implies crate::text::char_eq_ci(b[i], #[trigger] a[i])
    by {
        assert(crate::text::char_eq_ci(a[i], b[i]));
    }
}

/// Case-insensitive equality of texts is transitive.
proof fn lemma_seq_ci_trans(a: Seq<char>, b: Seq<char>, c: Seq<char>)
    requires
        seq_eq_ci(a, b),
        seq_eq_ci(b, c),
    ensures
        seq_eq_ci(a, c),
{
    assert forall|i: int| 0 <= i < a.len() implies crate::text::char_eq_ci(a[i], #[trigger] c[i])
    by {
        assert(crate::text::char_eq_ci(a[i], b[i]));
        assert(crate::text::char_eq_ci(b[i], c[i]));
        lemma_char_ci_trans(a[i], b[i], c[i]);
    }
}

/// Replacing one value whose key does not match `k` leaves `k`'s value.
proof fn lemma_prop_value_update(a: Seq<Property>, b: Seq<Property>, i: int, k: Seq<char>)
    requires
        a.len() == b.len(),
        0 <= i < a.len(),
        forall|j: int| 0 <= j < a.len() ==> (#[trigger] b[j]).key == a[j].key,
        forall|j: int| 0 <= j < a.len() && j != i ==> #[trigger] b[j] == a[j],
        !seq_eq_ci(a[i].key@, k),
    ensures
        prop_value_ci(b, k) == prop_value_ci(a, k),
    decreases a.len(),
{
    if a.len() > 0 {
        if seq_eq_ci(a[0].key@, k) {
            assert(b[0] == a[0]);
        } else {
            assert forall|j: int| 0 <= j < a.skip(1).len() implies (#[trigger] b.skip(1)[j]).key
                == a.skip(1)[j].key by {
                assert(b.skip(1)[j] == b[j + 1]);
                assert(a.skip(1)[j] == a[j + 1]);
            }
            assert forall|j: int| 0 <= j < a.skip(1).len() && j != i - 1 implies #[trigger] b.skip(
                1,
            )[j] == a.skip(1)[j] by {
                assert(b.skip(1)[j] == b[j + 1]);
                assert(a.skip(1)[j] == a[j + 1]);
            }
            if i == 0 {
                assert(b[0].key == a[0].key);
                assert(!seq_eq_ci(b[0].key@, k));
                assert forall|j: int| 0 <= j < a.skip(1).len() implies #[trigger] b.skip(1)[j]
                    == a.skip(1)[j] by {
                    assert(b.skip(1)[j] == b[j + 1]);
                    assert(a.skip(1)[j] == a[j + 1]);
                }
                assert(a.skip(1) =~= b.skip(1));
            } else {
                assert(a.skip(1)[i - 1] == a[i]);
                lemma_prop_value_update(a.skip(1), b.skip(1), i - 1, k);
            }
        }
    }
}

/// Appending an entry whose key does not match `k` leaves `k`'s value.
proof fn lemma_prop_value_push_other(props: Seq<Property>, p: Property, k: Seq<char>)
    requires
        !seq_eq_ci(p.key@, k),
    ensures
        prop_value_ci(props.push(p), k) == prop_value_ci(props, k),
    decreases props.len(),
{
    if props.len() == 0 {
        assert(props.push(p)[0] == p);
        assert(props.push(p).skip(1) =~= Seq::<Property>::empty());
        assert(prop_value_ci(Seq::<Property>::empty(), k) == Option::<Seq<char>>::None);
        assert(prop_value_ci(props, k) == Option::<Seq<char>>::None);
    } else {
        assert(props.push(p)[0] == props[0]);
        assert(props.push(p).skip(1) =~= props.skip(1).push(p));
        lemma_prop_value_push_other(props.skip(1), p, k);
    }
}

/// Ensures the property list carries a non-empty `CUSTOM_ID` never used
/// before, pushing that identifier onto `seen` and recording a repair when
/// the list's own identifier was missing, empty or already taken.
fn fix_node_props(
    props: Vec<Property>,
    base: &Vec<char>,
    seen: &mut Vec<Vec<char>>,
    repairs: &mut Vec<Repair>,
    node: usize,
) -> (r: Vec<Property>)
    ensures
        (prop_value_ci(r@, custom_id_key()) matches Option::Some(v) && v.len() > 0 && !old(
            seen,
        ).deep_view().contains(v) && final(seen).deep_view() == old(seen).deep_view().push(v)),
        props_wf(props@) ==> props_wf(r@),
        final(repairs)@.len() >= old(repairs)@.len(),
        ({
            let orig = prop_value_ci(props@, custom_id_key());
            (orig matches Option::Some(v) && v.len() > 0 && !old(seen).deep_view().contains(v))
                ==> r == props && final(repairs)@ == old(repairs)@
        }),
        forall|k: Seq<char>|
            !seq_eq_ci(k, custom_id_key()) ==> #[trigger] prop_value_ci(r@, k) == prop_value_ci(
                props@,
                k,
            ),
        report_values_ok(old(repairs)@) ==> report_values_ok(final(repairs)@),
{
    let key = crate::text::text("CUSTOM_ID");
    let ghost seen0 = seen.deep_view();
    proof {
        crate::text::lemma_deep_view_is_views(seen);
    }
    match find_prop_ci(&props, &key) {
        Option::Some(i) => {
            if props[i].value.len() > 0 && !contains_list(seen, &props[i].value) {
                let v = crate::text::copy_chars(&props[i].value);
                let ghost vv = v@;
                seen.push(v);
                proof {
                    lemma_prop_value_first(props@, key@, i as int);
                    crate::text::lemma_deep_view_is_views(seen);
                    assert(seen.deep_view() =~= seen0.push(vv));
                }
                props
            } else {
                proof {
                    lemma_prop_value_first(props@, key@, i as int);
                }
                let id = fresh_id(base, seen);
                let oldv = crate::text::copy_chars(&props[i].value);
                let newv = crate::text::copy_chars(&id);
                repairs.push(
                    Repair {
                        kind: RepairKind::ReplacedDuplicateId,
                        node,
                        old_value: Option::Some(oldv),
                        new_value: newv,
                    },
                );
                let mut out = props;
                let p = out.remove(i);
                let ghost idv = id@;
                out.insert(i, Property { key: p.key, value: id });
                let v = crate::text::copy_chars(&out[i].value);
                seen.push(v);
                proof {
                    assert(out@.len() == props@.len());
                    assert forall|j: int| 0 <= j < out@.len() && j != i implies out@[j]
                        == props@[j] by {
                        assert(out@ == props@.remove(i as int).insert(i as int, out@[i as int]));
                    }
                    assert(out@[i as int].key == props@[i as int].key);
                    assert(out@[i as int].value@ == idv);
                    assert(forall|j: int| 0 <= j < i ==> !seq_eq_ci(out@[j].key@, key@));
                    lemma_prop_value_first(out@, key@, i as int);
                    crate::text::lemma_deep_view_is_views(seen);
                    assert(seen.deep_view() =~= seen0.push(idv));
                    assert forall|k: Seq<char>| !seq_eq_ci(k, custom_id_key()) implies #[trigger]
                    prop_value_ci(out@, k) == prop_value_ci(props@, k) by {
                        if seq_eq_ci(props@[i as int].key@, k) {
                            lemma_seq_ci_sym(props@[i as int].key@, k);
                            lemma_seq_ci_trans(k, props@[i as int].key@, custom_id_key());
                        } else {
                            lemma_prop_value_update(props@, out@, i as int, k);
                        }
                    }
                    if props_wf(props@) {
                        assert forall|a: int, b: int| 0 <= a < b < out@.len() implies !seq_eq_ci(
                            out@[a].key@,
                            out@[b].key@,
                        ) by {
                            assert(out@[a].key == props@[a].key);
                            assert(out@[b].key == props@[b].key);
                        }
                    }
                }
                out
            }
        },
        Option::None => {
            proof {
                lemma_prop_value_none(props@, key@);
            }
            let id = fresh_id(base, seen);
            let newv = crate::text::copy_chars(&id);
            repairs.push(
                Repair {
                    kind: RepairKind::GeneratedId,
                    node,
                    old_value: Option::None,
                    new_value: newv,
                },
            );
            let mut out = props;
            let ghost idv = id@;
            let keycopy = crate::text::copy_chars(&key);
            out.push(Property { key: keycopy, value: id });
            let v = crate::text::copy_chars(&out[out.len() - 1].value);
            seen.push(v);
            proof {
                lemma_prop_value_push(
                    props@,
                    key@,
                    Property { key: keycopy, value: out@[out@.len() - 1].value },
                );
                assert(prop_value_ci(out@, key@) == Option::Some(idv));
                crate::text::lemma_deep_view_is_views(seen);
                assert(seen.deep_view() =~= seen0.push(idv));
                assert(out@ =~= props@.push(out@[out@.len() - 1]));
                assert forall|k: Seq<char>| !seq_eq_ci(k, custom_id_key()) implies #[trigger]
                prop_value_ci(out@, k) == prop_value_ci(props@, k) by {
                    let pushed = out@[out@.len() - 1];
                    if seq_eq_ci(pushed.key@, k) {
                        lemma_seq_ci_sym(pushed.key@, k);
                        lemma_seq_ci_trans(k, pushed.key@, custom_id_key());
                    } else {
                        lemma_prop_value_push_other(props@, pushed, k);
                    }
                }
            }
            out
        },
    }
}

/// With no match in the list, a pushed matching entry decides the value.
proof fn lemma_prop_value_push(props: Seq<Property>, key: Seq<char>, p: Property)
    requires
        forall|j: int| 0 <= j < props.len() ==> !seq_eq_ci(props[j].key@, key),
        seq_eq_ci(p.key@, key),
    ensures
        prop_value_ci(props.push(p), key) == Option::Some(p.value@),
    decreases props.len(),
{
    if props.len() == 0 {
        assert(props.push(p)[0] == p);
    } else {
        assert(props.push(p)[0] == props[0]);
        assert(props.push(p).skip(1) =~= props.skip(1).push(p));
        assert forall|j: int| 0 <= j < props.skip(1).len() implies !seq_eq_ci(
            props.skip(1)[j].key@,
            key,
        ) by {
            assert(props.skip(1)[j] == props[j + 1]);
        }
        lemma_prop_value_push(props.skip(1), key, p);
    }
}



/// The two headings agree on everything but their property lists: same
/// line, same section content, and children that agree likewise, in order.
pub open spec fn same_shape(a: Heading, b: Heading) -> bool
    decreases a,
{
    &&& b.head == a.head
    &&& b.section == a.section
    &&& b.children@.len() == a.children@.len()
    &&& forall|i: int|
        0 <= i < a.children@.len() ==> same_shape(#[trigger] a.children@[i], b.children@[i])
}


/// `b` keeps every property value of `a` other than `CUSTOM_ID`, at this
/// node and recursively in order through the children.
pub open spec fn props_kept(a: Heading, b: Heading) -> bool
    decreases a,
{
    &&& (forall|k: Seq<char>|
        !seq_eq_ci(k, custom_id_key()) ==> #[trigger] prop_value_ci(b.properties@, k)
            == prop_value_ci(a.properties@, k))
    &&& b.children@.len() == a.children@.len()
    &&& forall|i: int|
        0 <= i < a.children@.len() ==> props_kept(#[trigger] a.children@[i], b.children@[i])
}

pub proof fn lemma_props_kept_refl(h: Heading)
    ensures
        props_kept(h, h),
    decreases h,
{
    assert forall|i: int| 0 <= i < h.children@.len() implies props_kept(
        #[trigger] h.children@[i],
        h.children@[i],
    ) by {
        lemma_props_kept_refl(h.children@[i]);
    }
}

/// Every heading agrees with itself on everything but properties.
pub proof fn lemma_same_shape_refl(h: Heading)
    ensures
        same_shape(h, h),
    decreases h,
{
    assert forall|i: int| 0 <= i < h.children@.len() implies same_shape(
        #[trigger] h.children@[i],
        h.children@[i],
    ) by {
        lemma_same_shape_refl(h.children@[i]);
    }
}

/// Repairs one subtree in pre-order: the node itself first, then each
/// child. Every identifier pushed onto `seen` is new there, so a
/// duplicate-free `seen` stays duplicate-free; the node's own line and
/// section content are left untouched.
fn fix_heading(h: Heading, seen: &mut Vec<Vec<char>>, repairs: &mut Vec<Repair>) -> (r: Heading)
    ensures
        ids_ok(opt_ids_heading(r)),
        final(seen).deep_view() == old(seen).deep_view() + unwrap_ids(opt_ids_heading(r)),
        old(seen).deep_view().no_duplicates() ==> final(seen).deep_view().no_duplicates(),
        same_shape(h, r),
        props_kept(h, r),
        ({
            let orig = prop_value_ci(h.properties@, custom_id_key());
            (orig matches Option::Some(v) && v.len() > 0 && !old(seen).deep_view().contains(v))
                ==> prop_value_ci(r.properties@, custom_id_key()) == orig
        }),
        heading_wf(h) ==> heading_wf(r),
        final(repairs)@.len() >= old(repairs)@.len(),
        report_values_ok(old(repairs)@) ==> report_values_ok(final(repairs)@),
    decreases h,
{
    let ghost h0 = h;
    let ghost seen0 = seen.deep_view();
    let ghost rep0 = repairs@.len();
    let mut cur = h;
    let base = slug(&cur.head.headline);
    let node = seen.len();
    cur.properties = fix_node_props(cur.properties, &base, seen, repairs, node);
    let ghost seen1 = seen.deep_view();
    let ghost ownid = prop_value_ci(cur.properties@, custom_id_key());
    proof {
        let v = choose|v: Seq<char>|
            ownid == Option::Some(v) && v.len() > 0 && !seen0.contains(v) && seen1 == seen0.push(
                v,
            );
        if seen0.no_duplicates() {
            lemma_push_no_dup(seen0, v);
        }
        assert(unwrap_ids(seq![ownid]) =~= seq![v]);
        assert(seen1 =~= seen0 + unwrap_ids(seq![ownid]));
        assert(ids_ok(seq![ownid]));
    }
    let ghost kids0 = cur.children@;
    let ghost props1 = cur.properties;
    let ghost head1 = cur.head;
    let ghost sect1 = cur.section;
    let n = cur.children.len();
    for i in 0..n
        invariant
            n == kids0.len(),
            cur.children@.len() == n,
            cur.children@ == kids0.skip(i as int) + cur.children@.subrange(
                n - i as int,
                n as int,
            ),
            cur.properties == props1,
            cur.head == head1,
            cur.section == sect1,
            ownid == prop_value_ci(cur.properties@, custom_id_key()),
            ids_ok(seq![ownid]),
            seen1 == seen0 + unwrap_ids(seq![ownid]),
            ids_ok(opt_ids_forest(cur.children@.subrange(n - i as int, n as int))),
            seen.deep_view() == seen1 + unwrap_ids(
                opt_ids_forest(cur.children@.subrange(n - i as int, n as int)),
            ),
            seen0.no_duplicates() ==> seen.deep_view().no_duplicates(),
            forall|m: int|
                0 <= m < i ==> cur.children@.subrange(n - i as int, n as int)[m].head
                    == kids0[m].head,
            forall|m: int|
                0 <= m < i ==> same_shape(
                    kids0[m],
                    cur.children@.subrange(n - i as int, n as int)[m],
                ),
            forall|m: int|
                0 <= m < i ==> props_kept(
                    kids0[m],
                    cur.children@.subrange(n - i as int, n as int)[m],
                ),
            forall|m: int|
                0 <= m < i ==> (heading_wf(kids0[m]) ==> heading_wf(
                    cur.children@.subrange(n - i as int, n as int)[m],
                )),
            repairs@.len() >= rep0,
            report_values_ok(old(repairs)@) ==> report_values_ok(repairs@),
            h0.children@ == kids0,
            h0 == h,
        decreases n - i,
    {
        let ghost before = cur.children@;
        let c = cur.children.remove(0);
        proof {
            assert(before.subrange(0, n - i as int) == kids0.skip(i as int));
            assert(before.subrange(0, n - i as int)[0] == kids0.skip(i as int)[0]);
            assert(c == kids0[i as int]);
            assert(decreases_to!(h0 => h0.children));
            assert(decreases_to!(h0.children => h0.children@[i as int]));
            assert(decreases_to!(h0 => h0.children@[i as int]));
        }
        let ghost pre = cur.children@;
        let ghost seen_pre = seen.deep_view();
        let c2 = fix_heading(c, seen, repairs);
        cur.children.push(c2);
        proof {
            assert forall|m: int| 0 <= m < n - 1 implies pre[m] == before[m + 1] by {
                assert(pre == before.remove(0));
            }
            let done_pre = pre.subrange(n - 1 - i as int, n - 1 as int);
            assert(done_pre =~= before.subrange(n - i as int, n as int));
            let done_new = cur.children@.subrange(n - 1 - i as int, n as int);
            assert(done_new =~= done_pre.push(c2));
            lemma_opt_ids_forest_push(done_pre, c2);
            lemma_ids_concat(opt_ids_forest(done_pre), opt_ids_heading(c2));
            assert(seen.deep_view() =~= seen1 + unwrap_ids(opt_ids_forest(done_new)));
            assert(cur.children@ =~= kids0.skip(i + 1 as int) + done_new);
            assert forall|m: int| 0 <= m < i + 1 implies done_new[m].head == kids0[m].head by {
                if m < i {
                    assert(done_new[m] == done_pre[m]);
                    assert(done_pre[m] == before.subrange(n - i as int, n as int)[m]);
                }
            }
            assert forall|m: int| 0 <= m < i + 1 implies same_shape(kids0[m], done_new[m]) by {
                if m < i {
                    assert(done_new[m] == done_pre[m]);
                    assert(done_pre[m] == before.subrange(n - i as int, n as int)[m]);
                }
            }
            assert forall|m: int| 0 <= m < i + 1 implies props_kept(kids0[m], done_new[m]) by {
                if m < i {
                    assert(done_new[m] == done_pre[m]);
                    assert(done_pre[m] == before.subrange(n - i as int, n as int)[m]);
                }
            }
            assert forall|m: int|
                0 <= m < i + 1 implies (heading_wf(kids0[m]) ==> heading_wf(done_new[m])) by {
                if m < i {
                    assert(done_new[m] == done_pre[m]);
                    assert(done_pre[m] == before.subrange(n - i as int, n as int)[m]);
                }
            }
        }
    }
    proof {
        assert(cur.children@.subrange(0, n as int) =~= cur.children@);
        assert(kids0.skip(n as int) =~= Seq::<Heading>::empty());
        let whole = seq![ownid] + opt_ids_forest(cur.children@);
        assert(opt_ids_heading(cur) == whole);
        lemma_ids_concat(seq![ownid], opt_ids_forest(cur.children@));
        assert(seen.deep_view() =~= seen0 + unwrap_ids(whole));
        assert(same_shape(h0, cur));
        assert(props_kept(h0, cur));
        if heading_wf(h0) {
            assert forall|m: int| 0 <= m < cur.children@.len() implies cur.children@[m].head.level
                > cur.head.level && heading_wf(cur.children@[m]) by {
                assert(heading_wf(kids0[m]));
                assert(kids0[m].head.level > h0.head.level);
            }
            assert(heading_wf(cur));
        }
    }
    cur
}

/// Normalizes a document: returns one satisfying both structural
/// guarantees, together with the repair report. A document that already
/// satisfies them comes back unchanged, with an empty report; running
/// normalization twice therefore changes nothing the second time.
pub fn normalize(doc: Document, policy: &NormalizePolicy) -> (r: (Document, Vec<Repair>))
    requires
        policy.placeholder_title@.len() > 0,
        policy.placeholder_description@.len() > 0,
    ensures
        normalized(r.0),
        normalized(doc) ==> r.0 == doc && r.1@.len() == 0,
        document_wf(doc) ==> document_wf(r.0),
        r.0.zeroth.body == doc.zeroth.body,
        r.0.headings@.len() == doc.headings@.len(),
        forall|m: int|
            0 <= m < doc.headings@.len() ==> same_shape(
                doc.headings@[m],
                #[trigger] r.0.headings@[m],
            ),
        forall|m: int|
            0 <= m < doc.headings@.len() ==> props_kept(
                doc.headings@[m],
                #[trigger] r.0.headings@[m],
            ),
        ({
            let z = prop_value_ci(doc.zeroth.properties@, custom_id_key());
            (z matches Option::Some(v) && v.len() > 0) ==> prop_value_ci(
                r.0.zeroth.properties@,
                custom_id_key(),
            ) == z
        }),
        forall|m: int|
            0 <= m < doc.headings@.len() ==> keeps_own_id(
                doc.headings@[m],
                #[trigger] r.0.headings@[m],
                unwrap_ids(
                    seq![prop_value_ci(r.0.zeroth.properties@, custom_id_key())]
                        + opt_ids_forest(r.0.headings@.take(m)),
                ),
            ),
        forall|k: Seq<char>|
            !seq_eq_ci(k, custom_id_key()) ==> #[trigger] prop_value_ci(r.0.zeroth.properties@, k)
                == prop_value_ci(doc.zeroth.properties@, k),
        report_values_ok(r.1@),
{
    if is_normalized(&doc) {
        let reps: Vec<Repair> = Vec::new();
        proof {
            assert forall|m: int| 0 <= m < doc.headings@.len() implies same_shape(
                doc.headings@[m],
                #[trigger] doc.headings@[m],
            ) by {
                lemma_same_shape_refl(doc.headings@[m]);
            }
            assert forall|m: int| 0 <= m < doc.headings@.len() implies props_kept(
                doc.headings@[m],
                #[trigger] doc.headings@[m],
            ) by {
                lemma_props_kept_refl(doc.headings@[m]);
            }
            assert forall|m: int| 0 <= m < doc.headings@.len() implies keeps_own_id(
                doc.headings@[m],
                #[trigger] doc.headings@[m],
                unwrap_ids(
                    seq![prop_value_ci(doc.zeroth.properties@, custom_id_key())]
                        + opt_ids_forest(doc.headings@.take(m)),
                ),
            ) by {}
        }
        return (doc, reps);
    }
    let mut cur = doc;
    let mut repairs: Vec<Repair> = Vec::new();
    let mut seen: Vec<Vec<char>> = Vec::new();
    proof {
        crate::text::lemma_deep_view_is_views(&seen);
        assert(seen.deep_view() =~= Seq::<Seq<char>>::empty());
    }
    let title_ok = match &cur.zeroth.title {
        Option::Some(t) => t.len() > 0,
        Option::None => false,
    };
    if !title_ok {
        let old_t = match cur.zeroth.title {
            Option::Some(t) => Option::Some(t),
            Option::None => Option::None,
        };
        repairs.push(
            Repair {
                kind: RepairKind::SynthesizedTitle,
                node: 0,
                old_value: old_t,
                new_value: crate::text::copy_chars(&policy.placeholder_title),
            },
        );
        cur.zeroth.title = Option::Some(crate::text::copy_chars(&policy.placeholder_title));
    }
    let desc_ok = match &cur.zeroth.description {
        Option::Some(d) => d.len() > 0,
        Option::None => false,
    };
    if !desc_ok {
        let old_d = match cur.zeroth.description {
            Option::Some(d) => Option::Some(d),
            Option::None => Option::None,
        };
        repairs.push(
            Repair {
                kind: RepairKind::SynthesizedDescription,
                node: 0,
                old_value: old_d,
                new_value: crate::text::copy_chars(&policy.placeholder_description),
            },
        );
        cur.zeroth.description = Option::Some(
            crate::text::copy_chars(&policy.placeholder_description),
        );
    }
    let base0 = match &cur.zeroth.title {
        Option::Some(t) => slug(t),
        Option::None => Vec::new(),
    };
    proof {
        assert(!(exists|v: Seq<char>| seen.deep_view().contains(v))) by {
            if exists|v: Seq<char>| seen.deep_view().contains(v) {
                let v = choose|v: Seq<char>| seen.deep_view().contains(v);
                let j = choose|j: int| 0 <= j < seen.deep_view().len() && seen.deep_view()[j] == v;
            }
        }
    }
    cur.zeroth.properties = fix_node_props(cur.zeroth.properties, &base0, &mut seen, &mut repairs, 0);
    let ghost seen1 = seen.deep_view();
    let ghost zid = prop_value_ci(cur.zeroth.properties@, custom_id_key());
    proof {
        let v = choose|v: Seq<char>| zid == Option::Some(v) && v.len() > 0 && seen1
            == Seq::<Seq<char>>::empty().push(v);
        assert(Seq::<Seq<char>>::empty().push(v).no_duplicates());
        assert(unwrap_ids(seq![zid]) =~= seq![v]);
        assert(seen1 =~= Seq::<Seq<char>>::empty() + unwrap_ids(seq![zid]));
        assert(ids_ok(seq![zid]));
    }
    let ghost heads0 = cur.headings@;
    let ghost zer1 = cur.zeroth;
    let n = cur.headings.len();
    for i in 0..n
        invariant
            n == heads0.len(),
            cur.headings@.len() == n,
            cur.headings@ == heads0.skip(i as int) + cur.headings@.subrange(
                n - i as int,
                n as int,
            ),
            cur.zeroth == zer1,
            zid == prop_value_ci(cur.zeroth.properties@, custom_id_key()),
            ids_ok(seq![zid]),
            seen1 == Seq::<Seq<char>>::empty() + unwrap_ids(seq![zid]),
            seen1.no_duplicates(),
            ids_ok(opt_ids_forest(cur.headings@.subrange(n - i as int, n as int))),
            seen.deep_view() == seen1 + unwrap_ids(
                opt_ids_forest(cur.headings@.subrange(n - i as int, n as int)),
            ),
            seen.deep_view().no_duplicates(),
            forall|m: int|
                0 <= m < i ==> same_shape(
                    heads0[m],
                    cur.headings@.subrange(n - i as int, n as int)[m],
                ),
            forall|m: int|
                0 <= m < i ==> props_kept(
                    heads0[m],
                    cur.headings@.subrange(n - i as int, n as int)[m],
                ),
            forall|m: int|
                0 <= m < i ==> keeps_own_id(
                    heads0[m],
                    cur.headings@.subrange(n - i as int, n as int)[m],
                    unwrap_ids(
                        seq![zid] + opt_ids_forest(
                            cur.headings@.subrange(n - i as int, n as int).take(m),
                        ),
                    ),
                ),
            forall|m: int|
                0 <= m < i ==> (heading_wf(heads0[m]) ==> heading_wf(
                    cur.headings@.subrange(n - i as int, n as int)[m],
                )),
            (cur.zeroth.title matches Option::Some(t) && t@.len() > 0),
            (cur.zeroth.description matches Option::Some(d) && d@.len() > 0),
            report_values_ok(repairs@),
            heads0 == doc.headings@,
        decreases n - i,
    {
        let ghost before = cur.headings@;
        let c = cur.headings.remove(0);
        proof {
            assert(before.subrange(0, n - i as int) == heads0.skip(i as int));
            assert(before.subrange(0, n - i as int)[0] == heads0.skip(i as int)[0]);
            assert(c == heads0[i as int]);
        }
        let ghost pre = cur.headings@;
        let ghost seen_pre = seen.deep_view();
        let c2 = fix_heading(c, &mut seen, &mut repairs);
        cur.headings.push(c2);
        proof {
            assert forall|m: int| 0 <= m < n - 1 implies pre[m] == before[m + 1] by {
                assert(pre == before.remove(0));
            }
            let done_pre = pre.subrange(n - 1 - i as int, n - 1 as int);
            assert(done_pre =~= before.subrange(n - i as int, n as int));
            let done_new = cur.headings@.subrange(n - 1 - i as int, n as int);
            assert(done_new =~= done_pre.push(c2));
            lemma_opt_ids_forest_push(done_pre, c2);
            lemma_ids_concat(opt_ids_forest(done_pre), opt_ids_heading(c2));
            assert(seen.deep_view() =~= seen1 + unwrap_ids(opt_ids_forest(done_new)));
            assert(cur.headings@ =~= heads0.skip(i + 1 as int) + done_new);
            assert forall|m: int| 0 <= m < i + 1 implies same_shape(heads0[m], done_new[m]) by {
                if m < i {
                    assert(done_new[m] == done_pre[m]);
                    assert(done_pre[m] == before.subrange(n - i as int, n as int)[m]);
                }
            }
            assert forall|m: int| 0 <= m < i + 1 implies props_kept(heads0[m], done_new[m]) by {
                if m < i {
                    assert(done_new[m] == done_pre[m]);
                    assert(done_pre[m] == before.subrange(n - i as int, n as int)[m]);
                }
            }
            assert forall|m: int| 0 <= m < i + 1 implies keeps_own_id(
                heads0[m],
                done_new[m],
                unwrap_ids(seq![zid] + opt_ids_forest(done_new.take(m))),
            ) by {
                if m < i {
                    assert(done_new[m] == done_pre[m]);
                    assert(done_pre[m] == before.subrange(n - i as int, n as int)[m]);
                    assert(done_new.take(m) =~= before.subrange(n - i as int, n as int).take(m));
                } else {
                    assert(done_new[m] == c2);
                    assert(done_new.take(m) =~= done_pre);
                    lemma_ids_concat(seq![zid], opt_ids_forest(done_pre));
                    assert(seen_pre == unwrap_ids(seq![zid] + opt_ids_forest(done_pre)));
                }
            }
            assert forall|m: int|
                0 <= m < i + 1 implies (heading_wf(heads0[m]) ==> heading_wf(done_new[m])) by {
                if m < i {
                    assert(done_new[m] == done_pre[m]);
                    assert(done_pre[m] == before.subrange(n - i as int, n as int)[m]);
                }
            }
        }
    }
    proof {
        assert(cur.headings@.subrange(0, n as int) =~= cur.headings@);
        assert(heads0.skip(n as int) =~= Seq::<Heading>::empty());
        let whole = seq![zid] + opt_ids_forest(cur.headings@);
        assert(opt_ids_doc(cur) == whole);
        lemma_ids_concat(seq![zid], opt_ids_forest(cur.headings@));
        assert(seen.deep_view() =~= Seq::<Seq<char>>::empty() + unwrap_ids(whole));
        assert(unwrap_ids(whole) =~= seen.deep_view());
        assert(normalized(cur));
        assert forall|m: int| 0 <= m < heads0.len() implies keeps_own_id(
            heads0[m],
            #[trigger] cur.headings@[m],
            unwrap_ids(seq![zid] + opt_ids_forest(cur.headings@.take(m))),
        ) by {
            assert(cur.headings@.subrange(0, n as int) =~= cur.headings@);
            assert(cur.headings@.subrange(0, n as int)[m] == cur.headings@[m]);
            assert(cur.headings@.subrange(0, n as int).take(m) =~= cur.headings@.take(m));
        }
        if document_wf(doc) {
            assert forall|m: int| 0 <= m < cur.headings@.len() implies heading_wf(
                cur.headings@[m],
            ) by {
                assert(heading_wf(heads0[m]));
            }
        }
    }
    (cur, repairs)
}

} // verus!



