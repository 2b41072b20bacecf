//! The order of keys: texts by their characters, paths by their segments.
//!
//! Both are the lexicographic order: the first place where two sequences
//! differ decides, and a sequence comes before every longer one that it
//! begins.

use crate::text::to_chars;
use vstd::prelude::*;

verus! {

/// The first position at or after `i` where `a` and `b` differ or one ends.
pub open spec fn agree_from<T>(a: Seq<T>, b: Seq<T>, i: int) -> int
    decreases a.len() - i,
{
    if 0 <= i < a.len() && i < b.len() && a[i] == b[i] {
        agree_from(a, b, i + 1)
    } else {
        i
    }
}

/// How many leading elements `a` and `b` share.
pub open spec fn common_prefix_len<T>(a: Seq<T>, b: Seq<T>) -> int {
    agree_from(a, b, 0)
}

/// Whether `a` begins `b` and is shorter.
pub open spec fn is_proper_prefix<T>(a: Seq<T>, b: Seq<T>) -> bool {
    a.len() < b.len() && common_prefix_len(a, b) == a.len()
}

/// Whether `a` begins `b`: `a` is `b` or a proper prefix of it.
pub open spec fn is_prefix<T>(a: Seq<T>, b: Seq<T>) -> bool {
    a.len() <= b.len() && a == b.take(a.len() as int)
}

/// Whether neither of two sequences begins the other.
pub open spec fn independent<T>(a: Seq<T>, b: Seq<T>) -> bool {
    !is_prefix(a, b) && !is_prefix(b, a)
}

/// The lexicographic order that `lt` on elements gives to sequences.
pub open spec fn lex_lt<T>(a: Seq<T>, b: Seq<T>, lt: spec_fn(T, T) -> bool) -> bool {
    let k = common_prefix_len(a, b);
    if k < a.len() && k < b.len() {
        lt(a[k], b[k])
    } else {
        a.len() < b.len()
    }
}

/// Characters by their code points.
pub open spec fn char_order() -> spec_fn(char, char) -> bool {
    |x: char, y: char| (x as int) < (y as int)
}

/// Whether text `a` comes before text `b`.
pub open spec fn text_lt(a: Seq<char>, b: Seq<char>) -> bool {
    lex_lt(a, b, char_order())
}

/// The order of texts, as an order of the segments of paths.
pub open spec fn text_order() -> spec_fn(Seq<char>, Seq<char>) -> bool {
    |a: Seq<char>, b: Seq<char>| text_lt(a, b)
}

/// Whether path `p` comes before path `q`.
pub open spec fn path_lt(p: Seq<Seq<char>>, q: Seq<Seq<char>>) -> bool {
    lex_lt(p, q, text_order())
}

/// Whether path `p` is `q` or comes before it.
pub open spec fn path_le(p: Seq<Seq<char>>, q: Seq<Seq<char>>) -> bool {
    p == q || path_lt(p, q)
}

/// An order in which nothing comes before itself, that passes on along a
/// chain, and that decides between any two different elements.
pub open spec fn is_strict_total_order<T>(lt: spec_fn(T, T) -> bool) -> bool {
    &&& forall|x: T| !#[trigger] lt(x, x)
    &&& forall|x: T, y: T, z: T| #[trigger] lt(x, y) && #[trigger] lt(y, z) ==> lt(x, z)
    &&& forall|x: T, y: T| x != y ==> #[trigger] lt(x, y) || lt(y, x)
}

/// The segments of a path, as texts.
pub open spec fn path_view(p: Seq<String>) -> Seq<Seq<char>> {
    p.map_values(|s: String| s@)
}

/// What the common prefix is: `a` and `b` agree before it and not at it.
pub proof fn lemma_common_prefix_len<T>(a: Seq<T>, b: Seq<T>)
    ensures
        0 <= common_prefix_len(a, b) <= a.len(),
        common_prefix_len(a, b) <= b.len(),
        forall|j: int| 0 <= j < common_prefix_len(a, b) ==> a[j] == b[j],
        common_prefix_len(a, b) < a.len() && common_prefix_len(a, b) < b.len() ==> a[common_prefix_len(
            a,
            b,
        )] != b[common_prefix_len(a, b)],
{
    lemma_agree_from(a, b, 0);
}

/// What `agree_from` finds: the sequences agree from `i` up to it, and not
/// at it.
proof fn lemma_agree_from<T>(a: Seq<T>, b: Seq<T>, i: int)
    requires
        0 <= i <= a.len(),
        i <= b.len(),
    ensures
        i <= agree_from(a, b, i) <= a.len(),
        agree_from(a, b, i) <= b.len(),
        forall|j: int| i <= j < agree_from(a, b, i) ==> a[j] == b[j],
        agree_from(a, b, i) < a.len() && agree_from(a, b, i) < b.len() ==> a[agree_from(a, b, i)]
            != b[agree_from(a, b, i)],
    decreases a.len() - i,
{
    if i < a.len() && i < b.len() && a[i] == b[i] {
        lemma_agree_from(a, b, i + 1);
    }
}

/// Only one length is that of the common prefix.
pub proof fn lemma_common_prefix_is<T>(a: Seq<T>, b: Seq<T>, k: int)
    requires
        0 <= k <= a.len(),
        k <= b.len(),
        forall|j: int| 0 <= j < k ==> a[j] == b[j],
        k < a.len() && k < b.len() ==> a[k] != b[k],
    ensures
        common_prefix_len(a, b) == k,
{
    lemma_common_prefix_len(a, b);
}

/// The common prefix of `a` and `b` is that of `b` and `a`.
pub proof fn lemma_common_prefix_symmetric<T>(a: Seq<T>, b: Seq<T>)
    ensures
        common_prefix_len(a, b) == common_prefix_len(b, a),
{
    lemma_common_prefix_len(a, b);
    lemma_common_prefix_is(b, a, common_prefix_len(a, b));
}

/// No sequence comes before itself.
pub proof fn lemma_lex_irreflexive<T>(a: Seq<T>, lt: spec_fn(T, T) -> bool)
    ensures
        !lex_lt(a, a, lt),
{
    lemma_common_prefix_is(a, a, a.len() as int);
}

/// Of two sequences, one comes before the other or they are the same.
pub proof fn lemma_lex_total<T>(a: Seq<T>, b: Seq<T>, lt: spec_fn(T, T) -> bool)
    requires
        is_strict_total_order(lt),
    ensures
        a == b || lex_lt(a, b, lt) || lex_lt(b, a, lt),
        !(lex_lt(a, b, lt) && lex_lt(b, a, lt)),
        a == b ==> !lex_lt(a, b, lt),
{
    lemma_common_prefix_len(a, b);
    lemma_common_prefix_symmetric(a, b);
    lemma_lex_irreflexive(a, lt);
    let k = common_prefix_len(a, b);
    if k < a.len() && k < b.len() {
        if lt(a[k], b[k]) && lt(b[k], a[k]) {
            assert(lt(a[k], a[k]));
        }
    } else if a.len() == b.len() {
        assert(a =~= b);
    }
}

/// The order passes on along a chain.
pub proof fn lemma_lex_transitive<T>(a: Seq<T>, b: Seq<T>, c: Seq<T>, lt: spec_fn(T, T) -> bool)
    requires
        is_strict_total_order(lt),
        lex_lt(a, b, lt),
        lex_lt(b, c, lt),
    ensures
        lex_lt(a, c, lt),
{
    lemma_common_prefix_len(a, b);
    lemma_common_prefix_len(b, c);
    let k1 = common_prefix_len(a, b);
    let k2 = common_prefix_len(b, c);
    let k = if k1 < k2 {
        k1
    } else {
        k2
    };
    if k < a.len() && k < c.len() {
        if k1 == k2 {
            assert(lt(a[k], b[k]) && lt(b[k], c[k]));
            if a[k] == c[k] {
                assert(lt(a[k], a[k]));
            }
        }
    }
    lemma_common_prefix_is(a, c, k);
}

/// Characters are in a strict total order.
pub proof fn lemma_char_order()
    ensures
        is_strict_total_order(char_order()),
{
}

/// Texts are in a strict total order.
pub proof fn lemma_text_order()
    ensures
        is_strict_total_order(text_order()),
{
    lemma_char_order();
    let lt = text_order();
    assert forall|x: Seq<char>| !#[trigger] lt(x, x) by {
        lemma_lex_irreflexive(x, char_order());
    }
    assert forall|x: Seq<char>, y: Seq<char>, z: Seq<char>| #[trigger]
        lt(x, y) && #[trigger] lt(y, z) implies lt(x, z) by {
        lemma_lex_transitive(x, y, z, char_order());
    }
    assert forall|x: Seq<char>, y: Seq<char>| x != y implies #[trigger] lt(x, y) || lt(y, x) by {
        lemma_lex_total(x, y, char_order());
    }
}

/// No path comes before itself, and of two different paths exactly one comes
/// before the other.
pub proof fn lemma_path_order_total(p: Seq<Seq<char>>, q: Seq<Seq<char>>)
    ensures
        !path_lt(p, p),
        p == q || path_lt(p, q) || path_lt(q, p),
        !(path_lt(p, q) && path_lt(q, p)),
        path_le(p, q) || path_le(q, p),
        path_le(p, q) && path_le(q, p) ==> p == q,
{
    lemma_text_order();
    lemma_lex_irreflexive(p, text_order());
    lemma_lex_total(p, q, text_order());
}

/// The order of paths passes on along a chain.
pub proof fn lemma_path_order_transitive(p: Seq<Seq<char>>, q: Seq<Seq<char>>, r: Seq<Seq<char>>)
    requires
        path_le(p, q),
        path_le(q, r),
    ensures
        path_le(p, r),
        path_lt(p, q) || path_lt(q, r) ==> path_lt(p, r),
{
    lemma_text_order();
    if path_lt(p, q) && path_lt(q, r) {
        lemma_lex_transitive(p, q, r, text_order());
    }
}

/// The order of texts passes on along a chain.
pub proof fn lemma_text_order_transitive(a: Seq<char>, b: Seq<char>, c: Seq<char>)
    requires
        text_lt(a, b) || a == b,
        text_lt(b, c) || b == c,
    ensures
        text_lt(a, c) || a == c,
        text_lt(a, b) || text_lt(b, c) ==> text_lt(a, c),
{
    lemma_char_order();
    if text_lt(a, b) && text_lt(b, c) {
        lemma_lex_transitive(a, b, c, char_order());
    }
}

/// No text comes before itself, and of two different texts exactly one comes
/// before the other.
pub proof fn lemma_text_order_total(a: Seq<char>, b: Seq<char>)
    ensures
        !text_lt(a, a),
        a == b || text_lt(a, b) || text_lt(b, a),
        !(text_lt(a, b) && text_lt(b, a)),
{
    lemma_char_order();
    lemma_lex_irreflexive(a, char_order());
    lemma_lex_total(a, b, char_order());
}

/// A sequence begins another where the prefix they share is all of it.
pub proof fn lemma_prefix_by_common_len<T>(a: Seq<T>, b: Seq<T>)
    ensures
        is_prefix(a, b) <==> common_prefix_len(a, b) == a.len(),
        is_proper_prefix(a, b) <==> is_prefix(a, b) && a != b,
{
    lemma_common_prefix_len(a, b);
    let k = common_prefix_len(a, b);
    if is_prefix(a, b) {
        assert forall|j: int| 0 <= j < a.len() implies a[j] == b[j] by {
            assert(b.take(a.len() as int)[j] == b[j]);
        }
        lemma_common_prefix_is(a, b, a.len() as int);
    }
    if k == a.len() {
        assert(a =~= b.take(a.len() as int));
    }
    if is_prefix(a, b) && a.len() == b.len() {
        assert(b.take(a.len() as int) =~= b);
    }
}

/// A path that begins another does not come after it.
pub proof fn lemma_prefix_comes_first(p: Seq<Seq<char>>, q: Seq<Seq<char>>)
    requires
        is_prefix(p, q),
    ensures
        path_le(p, q),
{
    lemma_prefix_by_common_len(p, q);
}

/// What lies between a path and a path that it begins is begun by it too:
/// the paths under one prefix stand together in the order.
pub proof fn lemma_prefix_sandwich(p: Seq<Seq<char>>, r: Seq<Seq<char>>, q: Seq<Seq<char>>)
    requires
        is_prefix(p, q),
        path_le(p, r),
        path_le(r, q),
    ensures
        is_prefix(p, r),
{
    lemma_prefix_by_common_len(p, q);
    lemma_prefix_by_common_len(p, r);
    lemma_common_prefix_len(p, r);
    lemma_common_prefix_len(p, q);
    let m = common_prefix_len(p, r);
    if m < p.len() {
        lemma_path_order_total(p, r);
        assert(path_lt(p, r));
        assert(m < r.len());
        assert(text_lt(p[m], r[m]));
        assert(p[m] == q[m]);
        assert forall|j: int| 0 <= j < m implies r[j] == q[j] by {
            assert(p[j] == q[j]);
        }
        lemma_common_prefix_is(r, q, m);
        lemma_path_order_total(r, q);
        assert(r != q);
        assert(text_lt(r[m], q[m]));
        lemma_text_order_total(p[m], r[m]);
    }
}

/// How one key stands to another.
#[derive(Debug, Clone, Copy, PartialEq, Eq)]
pub enum Relation {
    Before,
    Same,
    After,
}

/// How text `a` stands to text `b`.
pub fn compare_text(a: &str, b: &str) -> (r: Relation)
    ensures
        r is Before <==> text_lt(a@, b@),
        r is Same <==> a@ == b@,
        r is After <==> text_lt(b@, a@),
{
    let x = to_chars(a);
    let y = to_chars(b);
    compare_chars(x.as_slice(), y.as_slice())
}

/// How the text of `x` stands to the text of `y`.
pub fn compare_chars(x: &[char], y: &[char]) -> (r: Relation)
    ensures
        r is Before <==> text_lt(x@, y@),
        r is Same <==> x@ == y@,
        r is After <==> text_lt(y@, x@),
{
    let n = x.len();
    let m = y.len();
    let mut i: usize = 0;
    while i < n && i < m && x[i] == y[i]
        invariant
            i <= n == x@.len(),
            i <= m == y@.len(),
            common_prefix_len(x@, y@) == agree_from(x@, y@, i as int),
        decreases n - i,
    {
        i += 1;
    }
    proof {
        lemma_common_prefix_symmetric(x@, y@);
        lemma_text_order_total(x@, y@);
    }
    if i < n && i < m {
        if x[i] < y[i] {
            Relation::Before
        } else {
            Relation::After
        }
    } else if n < m {
        Relation::Before
    } else if n == m {
        Relation::Same
    } else {
        Relation::After
    }
}

/// How many leading segments paths `p` and `q` share.
pub fn common_prefix(p: &Vec<String>, q: &Vec<String>) -> (k: usize)
    ensures
        k == common_prefix_len(path_view(p@), path_view(q@)),
{
    let n = p.len();
    let m = q.len();
    let ghost a = path_view(p@);
    let ghost b = path_view(q@);
    let mut i: usize = 0;
    while i < n && i < m && p[i] == q[i]
        invariant
            i <= n == p@.len(),
            i <= m == q@.len(),
            a == path_view(p@),
            b == path_view(q@),
            common_prefix_len(a, b) == agree_from(a, b, i as int),
        decreases n - i,
    {
        i += 1;
    }
    i
}

/// How path `p` stands to path `q`.
pub fn compare_paths(p: &Vec<String>, q: &Vec<String>) -> (r: Relation)
    ensures
        r is Before <==> path_lt(path_view(p@), path_view(q@)),
        r is Same <==> path_view(p@) == path_view(q@),
        r is After <==> path_lt(path_view(q@), path_view(p@)),
{
    let k = common_prefix(p, q);
    proof {
        lemma_common_prefix_symmetric(path_view(p@), path_view(q@));
        lemma_common_prefix_len(path_view(p@), path_view(q@));
        lemma_path_order_total(path_view(p@), path_view(q@));
    }
    if k < p.len() && k < q.len() {
        compare_text(p[k].as_str(), q[k].as_str())
    } else if p.len() < q.len() {
        Relation::Before
    } else if p.len() == q.len() {
        Relation::Same
    } else {
        Relation::After
    }
}

} // verus!
