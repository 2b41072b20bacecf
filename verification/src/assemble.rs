//! The assembler: from pairs in the order of their paths to the tree.
//!
//! The pairs are read once, front to back. A stack holds the objects that
//! are open along the path of the pair last read; the place where the next
//! path leaves the last one decides which of them close and which new ones
//! open.

use crate::de::{pairs_view, paths_sorted, EnvPair, Envs, PairView};
use crate::error::{spec_value_error, AssembleError, AssembleErrorView};
use crate::order::{
    common_prefix, independent, is_prefix, is_proper_prefix, lemma_common_prefix_is,
    lemma_common_prefix_len, lemma_path_order_total, lemma_path_order_transitive,
    lemma_prefix_by_common_len, lemma_prefix_comes_first, lemma_prefix_sandwich,
    lemma_text_order_total, lemma_text_order_transitive, path_le, path_view, text_lt, Relation,
};
use crate::value::{
    entries_view, keys_below, keys_increasing, lemma_entries_view, lookup, spec_parse_value,
    ObjectMap, Value, ValueView,
};
use vstd::prelude::*;

verus! {

/// The object under `key`, or the empty object where `key` is bound to none.
pub open spec fn child_object(tree: Map<Seq<char>, ValueView>, key: Seq<char>) -> Map<
    Seq<char>,
    ValueView,
> {
    if tree.dom().contains(key) {
        match tree[key] {
            ValueView::Object(m) => m,
            _ => Map::empty(),
        }
    } else {
        Map::empty()
    }
}

/// The tree with `v` at `path`: the last segment is bound to `v` in the
/// object that the segments before it lead to, through objects that are
/// there or that are made on the way.
pub open spec fn put(tree: Map<Seq<char>, ValueView>, path: Seq<Seq<char>>, v: ValueView) -> Map<
    Seq<char>,
    ValueView,
>
    decreases path.len(),
{
    if path.len() == 0 {
        tree
    } else if path.len() == 1 {
        tree.insert(path[0], v)
    } else {
        tree.insert(
            path[0],
            ValueView::Object(put(child_object(tree, path[0]), path.drop_first(), v)),
        )
    }
}

/// What one pair does to the tree of the pairs before it, the last of which
/// had the path `prev`. A path that passes through `prev` finds a value
/// where it needs an object; a path that repeats `prev` finds its key bound.
/// In a sorted stream a path meets no other pair than the one before it:
/// the paths under one prefix stand together.
pub open spec fn spec_place(
    tree: Map<Seq<char>, ValueView>,
    prev: Option<Seq<Seq<char>>>,
    pair: PairView,
) -> Result<Map<Seq<char>, ValueView>, AssembleErrorView> {
    if prev is Some && is_proper_prefix(prev->0, pair.path) {
        Err(AssembleErrorView::TypeConflict(prev->0))
    } else {
        match spec_parse_value(pair.raw) {
            Err(e) => Err(spec_value_error(e)),
            Ok(v) => if prev == Some(pair.path) {
                Err(AssembleErrorView::DuplicateKey(pair.path))
            } else {
                Ok(put(tree, pair.path, v))
            },
        }
    }
}

/// The path of the pair before the last.
pub open spec fn prev_path(pairs: Seq<PairView>) -> Option<Seq<Seq<char>>> {
    if pairs.len() >= 2 {
        Some(pairs[pairs.len() - 2].path)
    } else {
        None
    }
}

/// The object that sorted pairs build, or the error of the first pair that
/// fails.
pub open spec fn spec_build(pairs: Seq<PairView>) -> Result<
    Map<Seq<char>, ValueView>,
    AssembleErrorView,
>
    decreases pairs.len(),
{
    if pairs.len() == 0 {
        Ok(Map::empty())
    } else {
        match spec_build(pairs.drop_last()) {
            Err(e) => Err(e),
            Ok(tree) => spec_place(tree, prev_path(pairs), pairs.last()),
        }
    }
}

/// What a stream of pairs assembles to: nothing but an error where it is not
/// sorted; an object at the root otherwise.
pub open spec fn spec_assemble(pairs: Seq<PairView>) -> Result<ValueView, AssembleErrorView> {
    if !paths_sorted(pairs) {
        Err(AssembleErrorView::UnsortedInput)
    } else {
        match spec_build(pairs) {
            Ok(tree) => Ok(ValueView::Object(tree)),
            Err(e) => Err(e),
        }
    }
}

/// The result of an assembly, as mathematical values.
pub open spec fn assemble_result_view(r: Result<Value, AssembleError>) -> Result<
    ValueView,
    AssembleErrorView,
> {
    match r {
        Ok(v) => Ok(v@),
        Err(e) => Err(e@),
    }
}

/// Once a pair has failed, no later pair mends it.
pub proof fn lemma_build_error_stays(pairs: Seq<PairView>, k: int)
    requires
        0 <= k <= pairs.len(),
        spec_build(pairs.take(k)) is Err,
    ensures
        spec_build(pairs) == spec_build(pairs.take(k)),
    decreases pairs.len(),
{
    if k == pairs.len() {
        assert(pairs.take(k) =~= pairs);
    } else {
        assert(pairs.drop_last().take(k) =~= pairs.take(k));
        lemma_build_error_stays(pairs.drop_last(), k);
    }
}

/// The step from the tree of `i` pairs to the tree of one pair more.
proof fn lemma_build_step(pairs: Seq<PairView>, i: int)
    requires
        0 <= i < pairs.len(),
    ensures
        spec_build(pairs.take(i + 1)) == match spec_build(pairs.take(i)) {
            Err(e) => Err(e),
            Ok(tree) => spec_place(
                tree,
                if i > 0 {
                    Some(pairs[i - 1].path)
                } else {
                    None
                },
                pairs[i],
            ),
        },
{
    assert(pairs.take(i + 1).drop_last() =~= pairs.take(i));
}

/// An object that is open while the pairs are read: the key it will be bound
/// to in the object above it, and what it holds so far.
struct Open {
    name: Seq<char>,
    object: Map<Seq<char>, ValueView>,
}

/// The object that the open object at `depth` stands for, once every object
/// below it has been closed into the one above.
spec fn collapse(frames: Seq<Open>, depth: int) -> Map<Seq<char>, ValueView>
    decreases frames.len() - depth,
{
    if depth + 1 < frames.len() {
        frames[depth].object.insert(
            frames[depth + 1].name,
            ValueView::Object(collapse(frames, depth + 1)),
        )
    } else {
        frames[depth].object
    }
}

/// Closing the deepest open object into the one above it changes nothing of
/// what the open objects stand for.
proof fn lemma_close(before: Seq<Open>, after: Seq<Open>, depth: int)
    requires
        before.len() >= 2,
        after.len() == before.len() - 1,
        0 <= depth < after.len(),
        forall|k: int| 0 <= k < after.len() - 1 ==> after[k] == before[k],
        after.last().name == before[after.len() - 1].name,
        after.last().object == before[after.len() - 1].object.insert(
            before.last().name,
            ValueView::Object(before.last().object),
        ),
    ensures
        collapse(after, depth) == collapse(before, depth),
    decreases after.len() - depth,
{
    if depth + 1 < after.len() {
        lemma_close(before, after, depth + 1);
        if depth + 1 == after.len() - 1 {
            assert(after[depth + 1].name == before[depth + 1].name);
        }
    } else {
        assert(collapse(before, depth + 1) == before.last().object);
    }
}

/// Opening objects along a path and binding the last segment in the deepest
/// of them is putting the value at the path.
proof fn lemma_put(
    before: Seq<Open>,
    after: Seq<Open>,
    path: Seq<Seq<char>>,
    v: ValueView,
    depth: int,
)
    requires
        1 <= before.len() <= after.len() == path.len(),
        0 <= depth < after.len(),
        forall|k: int| 1 <= k < after.len() ==> (#[trigger] after[k]).name == path[k - 1],
        forall|k: int| 1 <= k < before.len() ==> (#[trigger] before[k]).name == path[k - 1],
        forall|k: int| 0 <= k < before.len() - 1 ==> (#[trigger] after[k]).object == before[k].object,
        !before.last().object.dom().contains(path[before.len() - 1]),
        after[before.len() - 1].object == if before.len() == path.len() {
            before.last().object.insert(path[before.len() - 1], v)
        } else {
            before.last().object
        },
        forall|k: int|
            before.len() <= k < after.len() ==> (#[trigger] after[k]).object == if k == path.len()
                - 1 {
                Map::<Seq<char>, ValueView>::empty().insert(path[k], v)
            } else {
                Map::<Seq<char>, ValueView>::empty()
            },
    ensures
        depth < before.len() ==> collapse(after, depth) == put(
            collapse(before, depth),
            path.skip(depth),
            v,
        ),
        depth >= before.len() ==> collapse(after, depth) == put(
            Map::empty(),
            path.skip(depth),
            v,
        ),
    decreases after.len() - depth,
{
    let rest = path.skip(depth);
    assert(rest[0] == path[depth]);
    if depth + 1 < after.len() {
        lemma_put(before, after, path, v, depth + 1);
        assert(rest.drop_first() =~= path.skip(depth + 1));
        assert(after[depth + 1].name == path[depth]);
        let below = collapse(after, depth + 1);
        if depth + 1 < before.len() {
            let x = collapse(before, depth);
            assert(before[depth + 1].name == path[depth]);
            assert(child_object(x, path[depth]) == collapse(before, depth + 1));
            assert(after[depth].object == before[depth].object);
            assert(x.insert(path[depth], ValueView::Object(below)) =~= after[depth].object.insert(
                path[depth],
                ValueView::Object(below),
            ));
        } else if depth + 1 == before.len() {
            let x = collapse(before, depth);
            assert(x == before.last().object);
            assert(child_object(x, path[depth]) == Map::<Seq<char>, ValueView>::empty());
        } else {
            assert(child_object(Map::<Seq<char>, ValueView>::empty(), path[depth]) == Map::<
                Seq<char>,
                ValueView,
            >::empty());
        }
    } else {
    }
}

/// The value that was put at a path is found there.
pub proof fn lemma_put_then_lookup(tree: Map<Seq<char>, ValueView>, path: Seq<Seq<char>>, v: ValueView)
    requires
        path.len() > 0,
    ensures
        lookup(put(tree, path, v), path) == Some(v),
    decreases path.len(),
{
    if path.len() > 1 {
        lemma_put_then_lookup(child_object(tree, path[0]), path.drop_first(), v);
    }
}

/// Putting a value at a path changes nothing at a path that neither begins
/// it nor is begun by it.
pub proof fn lemma_put_keeps_others(
    tree: Map<Seq<char>, ValueView>,
    path: Seq<Seq<char>>,
    v: ValueView,
    other: Seq<Seq<char>>,
)
    requires
        path.len() > 0,
        independent(path, other),
    ensures
        lookup(put(tree, path, v), other) == lookup(tree, other),
    decreases path.len(),
{
    if other.len() > 0 {
        if path[0] == other[0] {
            assert(path.len() > 1) by {
                if path.len() == 1 {
                    assert(path =~= other.take(1));
                }
            }
            assert(other.len() > 1) by {
                if other.len() == 1 {
                    assert(other =~= path.take(1));
                }
            }
            let p = path.drop_first();
            let o = other.drop_first();
            assert(!is_prefix(p, o)) by {
                if is_prefix(p, o) {
                    assert(path =~= other.take(path.len() as int)) by {
                        assert forall|j: int| 0 <= j < path.len() implies path[j] == other.take(
                            path.len() as int,
                        )[j] by {
                            if j > 0 {
                                assert(p[j - 1] == o.take(p.len() as int)[j - 1]);
                            }
                        }
                    }
                }
            }
            assert(!is_prefix(o, p)) by {
                if is_prefix(o, p) {
                    assert(other =~= path.take(other.len() as int)) by {
                        assert forall|j: int| 0 <= j < other.len() implies other[j] == path.take(
                            other.len() as int,
                        )[j] by {
                            if j > 0 {
                                assert(o[j - 1] == p.take(o.len() as int)[j - 1]);
                            }
                        }
                    }
                }
            }
            lemma_put_keeps_others(child_object(tree, path[0]), p, v, o);
            lemma_put_keeps_others(Map::empty(), p, v, o);
        }
    }
}

/// On the way to a value that was put there lie objects.
pub proof fn lemma_put_makes_objects(
    tree: Map<Seq<char>, ValueView>,
    path: Seq<Seq<char>>,
    v: ValueView,
    before: Seq<Seq<char>>,
)
    requires
        before.len() > 0,
        is_prefix(before, path),
        before != path,
    ensures
        lookup(put(tree, path, v), before) matches Some(ValueView::Object(_)),
    decreases path.len(),
{
    assert(before[0] == path.take(before.len() as int)[0]);
    assert(path.len() > 1) by {
        if path.len() == 1 {
            assert(path.take(1) =~= path);
        }
    }
    if before.len() > 1 {
        let p = path.drop_first();
        let b = before.drop_first();
        assert(b =~= p.take(b.len() as int)) by {
            assert forall|j: int| 0 <= j < b.len() implies b[j] == p.take(b.len() as int)[j] by {
                assert(before[j + 1] == path.take(before.len() as int)[j + 1]);
            }
        }
        if b == p {
            assert(before =~= path);
        }
        lemma_put_makes_objects(child_object(tree, path[0]), p, v, b);
    }
}

/// Behind a value that was put at a path, and that is no object, lies
/// nothing.
pub proof fn lemma_put_ends_there(
    tree: Map<Seq<char>, ValueView>,
    path: Seq<Seq<char>>,
    v: ValueView,
    beyond: Seq<Seq<char>>,
)
    requires
        path.len() > 0,
        is_prefix(path, beyond),
        path != beyond,
        !(v is Object),
    ensures
        lookup(put(tree, path, v), beyond) is None,
    decreases path.len(),
{
    assert(path[0] == beyond.take(path.len() as int)[0]);
    assert(beyond.len() > 1) by {
        if beyond.len() == 1 {
            assert(beyond.take(1) =~= beyond);
        }
    }
    if path.len() > 1 {
        let p = path.drop_first();
        let b = beyond.drop_first();
        assert(p =~= b.take(p.len() as int)) by {
            assert forall|j: int| 0 <= j < p.len() implies p[j] == b.take(p.len() as int)[j] by {
                assert(path[j + 1] == beyond.take(path.len() as int)[j + 1]);
            }
        }
        if b == p {
            assert(beyond =~= path);
        }
        lemma_put_ends_there(child_object(tree, path[0]), p, v, b);
    }
}

/// The value of a pair is a scalar or an array, never an object.
pub proof fn lemma_parsed_value_is_flat(raw: Seq<char>)
    ensures
        spec_parse_value(raw) matches Ok(v) ==> !(v is Object),
{
}

/// Whether every pair has a path of at least one segment.
pub open spec fn paths_nonempty(pairs: Seq<PairView>) -> bool {
    forall|i: int| 0 <= i < pairs.len() ==> (#[trigger] pairs[i]).path.len() > 0
}

/// Where sorted pairs build a tree, the value of each pair reads, and no
/// path of a pair begins the path of another pair or is that path.
pub proof fn lemma_built_pairs_are_apart(pairs: Seq<PairView>)
    requires
        paths_sorted(pairs),
        spec_build(pairs) is Ok,
    ensures
        forall|i: int| 0 <= i < pairs.len() ==> spec_parse_value((#[trigger] pairs[i]).raw) is Ok,
        forall|i: int, j: int|
            #![trigger pairs[i], pairs[j]]
            0 <= i < j < pairs.len() ==> independent(pairs[i].path, pairs[j].path),
    decreases pairs.len(),
{
    if pairs.len() > 0 {
        let init = pairs.drop_last();
        let last = pairs.len() - 1;
        assert forall|i: int, j: int| 0 <= i < j < init.len() implies path_le(
            (#[trigger] init[i]).path,
            (#[trigger] init[j]).path,
        ) by {
            assert(init[i] == pairs[i] && init[j] == pairs[j]);
        }
        lemma_built_pairs_are_apart(init);
        assert forall|i: int| 0 <= i < pairs.len() implies spec_parse_value(
            (#[trigger] pairs[i]).raw,
        ) is Ok by {
            if i < last {
                assert(init[i] == pairs[i]);
            }
        }
        assert forall|i: int, j: int|
            #![trigger pairs[i], pairs[j]]
            0 <= i < j < pairs.len() implies independent(pairs[i].path, pairs[j].path) by {
            if j < last {
                assert(init[i] == pairs[i] && init[j] == pairs[j]);
            } else {
                let p = pairs[i].path;
                let q = pairs[last].path;
                let prev = pairs[last - 1].path;
                lemma_prefix_by_common_len(prev, q);
                assert(path_le(p, q));
                if is_prefix(q, p) {
                    lemma_prefix_comes_first(q, p);
                    lemma_path_order_total(p, q);
                    assert(p == q);
                    assert(q.take(q.len() as int) =~= q);
                }
                if is_prefix(p, q) {
                    if i < last - 1 {
                        assert(path_le(pairs[i].path, pairs[last - 1].path));
                        assert(path_le(pairs[last - 1].path, pairs[last].path));
                        lemma_prefix_sandwich(p, prev, q);
                        assert(init[i] == pairs[i] && init[last - 1] == pairs[last - 1]);
                        assert(independent(init[i].path, init[last - 1].path));
                    }
                }
            }
        }
    }
}

/// Nothing is lost: in the tree of sorted pairs every path of a pair leads
/// to the value of that pair.
pub proof fn lemma_assembled_holds_every_pair(pairs: Seq<PairView>, i: int)
    requires
        paths_sorted(pairs),
        paths_nonempty(pairs),
        spec_build(pairs) is Ok,
        0 <= i < pairs.len(),
    ensures
        spec_parse_value(pairs[i].raw) is Ok,
        lookup(spec_build(pairs)->Ok_0, pairs[i].path) == Some(spec_parse_value(pairs[i].raw)->Ok_0),
    decreases pairs.len(),
{
    let init = pairs.drop_last();
    let last = pairs.len() - 1;
    let tree = spec_build(init)->Ok_0;
    let v = spec_parse_value(pairs[last].raw)->Ok_0;
    assert(spec_build(pairs) == Ok::<Map<Seq<char>, ValueView>, AssembleErrorView>(
        put(tree, pairs[last].path, v),
    ));
    lemma_built_pairs_are_apart(pairs);
    if i == last {
        lemma_put_then_lookup(tree, pairs[last].path, v);
    } else {
        assert forall|a: int, b: int| 0 <= a < b < init.len() implies path_le(
            (#[trigger] init[a]).path,
            (#[trigger] init[b]).path,
        ) by {
            assert(init[a] == pairs[a] && init[b] == pairs[b]);
        }
        assert forall|a: int| 0 <= a < init.len() implies (#[trigger] init[a]).path.len() > 0 by {
            assert(init[a] == pairs[a]);
        }
        lemma_assembled_holds_every_pair(init, i);
        assert(init[i] == pairs[i]);
        assert(independent(pairs[i].path, pairs[last].path));
        lemma_put_keeps_others(tree, pairs[last].path, v, pairs[i].path);
    }
}

/// Nothing is made up: in the tree of sorted pairs every scalar and every
/// array is the value of a pair, and stands at the path of that pair.
pub proof fn lemma_assembled_holds_only_pairs(pairs: Seq<PairView>, path: Seq<Seq<char>>)
    requires
        paths_sorted(pairs),
        paths_nonempty(pairs),
        spec_build(pairs) is Ok,
        lookup(spec_build(pairs)->Ok_0, path) is Some,
        !(lookup(spec_build(pairs)->Ok_0, path)->0 is Object),
    ensures
        exists|i: int|
            0 <= i < pairs.len() && (#[trigger] pairs[i]).path == path && spec_parse_value(
                pairs[i].raw,
            ) == Ok::<ValueView, crate::error::ValueError>(
                lookup(spec_build(pairs)->Ok_0, path)->0,
            ),
    decreases pairs.len(),
{
    if pairs.len() > 0 {
        let init = pairs.drop_last();
        let last = pairs.len() - 1;
        let tree = spec_build(init)->Ok_0;
        let p = pairs[last].path;
        let v = spec_parse_value(pairs[last].raw)->Ok_0;
        assert(spec_build(pairs) == Ok::<Map<Seq<char>, ValueView>, AssembleErrorView>(
            put(tree, p, v),
        ));
        lemma_parsed_value_is_flat(pairs[last].raw);
        if path == p {
            lemma_put_then_lookup(tree, p, v);
            assert(pairs[last].path == path);
        } else if is_prefix(path, p) {
            lemma_put_makes_objects(tree, p, v, path);
        } else if is_prefix(p, path) {
            lemma_put_ends_there(tree, p, v, path);
        } else {
            lemma_put_keeps_others(tree, p, v, path);
            assert forall|a: int, b: int| 0 <= a < b < init.len() implies path_le(
                (#[trigger] init[a]).path,
                (#[trigger] init[b]).path,
            ) by {
                assert(init[a] == pairs[a] && init[b] == pairs[b]);
            }
            assert forall|a: int| 0 <= a < init.len() implies (#[trigger] init[a]).path.len()
                > 0 by {
                assert(init[a] == pairs[a]);
            }
            lemma_assembled_holds_only_pairs(init, path);
            let i = choose|i: int|
                0 <= i < init.len() && (#[trigger] init[i]).path == path && spec_parse_value(
                    init[i].raw,
                ) == Ok::<ValueView, crate::error::ValueError>(lookup(tree, path)->0);
            assert(pairs[i] == init[i]);
        }
    }
}

/// No conflict is reported that is not there: a path that is refused as
/// passing through a value finds a scalar or an array on its way, in the tree
/// of the pairs before it; a path that is refused as a duplicate finds its
/// own key bound there.
pub proof fn lemma_conflicts_are_real(pairs: Seq<PairView>)
    requires
        paths_sorted(pairs),
        paths_nonempty(pairs),
        pairs.len() > 0,
        spec_build(pairs.drop_last()) is Ok,
    ensures
        spec_build(pairs) matches Err(AssembleErrorView::TypeConflict(q)) ==> {
            &&& is_prefix(q, pairs.last().path)
            &&& q != pairs.last().path
            &&& lookup(spec_build(pairs.drop_last())->Ok_0, q) matches Some(v)
            &&& !(v is Object)
        },
        spec_build(pairs) matches Err(AssembleErrorView::DuplicateKey(p)) ==> {
            &&& p == pairs.last().path
            &&& lookup(spec_build(pairs.drop_last())->Ok_0, p) is Some
        },
{
    let init = pairs.drop_last();
    if pairs.len() >= 2 {
        let prev = pairs[pairs.len() - 2].path;
        assert(init[init.len() - 1] == pairs[pairs.len() - 2]);
        assert forall|a: int, b: int| 0 <= a < b < init.len() implies path_le(
            (#[trigger] init[a]).path,
            (#[trigger] init[b]).path,
        ) by {
            assert(init[a] == pairs[a] && init[b] == pairs[b]);
        }
        assert forall|a: int| 0 <= a < init.len() implies (#[trigger] init[a]).path.len() > 0 by {
            assert(init[a] == pairs[a]);
        }
        lemma_assembled_holds_every_pair(init, init.len() - 1);
        lemma_parsed_value_is_flat(init[init.len() - 1].raw);
        lemma_prefix_by_common_len(prev, pairs.last().path);
    }
}

/// A stream is refused for its order exactly where it is not sorted.
pub proof fn lemma_unsorted_is_refused(pairs: Seq<PairView>)
    ensures
        spec_assemble(pairs) == Err::<ValueView, AssembleErrorView>(
            AssembleErrorView::UnsortedInput,
        ) <==> !paths_sorted(pairs),
        spec_assemble(pairs) matches Ok(v) ==> v is Object,
{
    lemma_build_never_unsorted(pairs);
}

/// No pair fails for the order of the stream.
proof fn lemma_build_never_unsorted(pairs: Seq<PairView>)
    ensures
        spec_build(pairs) != Err::<Map<Seq<char>, ValueView>, AssembleErrorView>(
            AssembleErrorView::UnsortedInput,
        ),
    decreases pairs.len(),
{
    if pairs.len() > 0 {
        lemma_build_never_unsorted(pairs.drop_last());
    }
}

/// An open object as the assembler holds it.
struct Frame {
    name: String,
    entries: Vec<(String, Value)>,
}

/// An open object of the assembler as a mathematical value.
spec fn frame_view(f: Frame) -> Open {
    Open { name: f.name@, object: entries_view(f.entries@) }
}

/// The open objects of the assembler as mathematical values.
spec fn opens(frames: Seq<Frame>) -> Seq<Open> {
    frames.map_values(|f: Frame| frame_view(f))
}

/// Whether every key of `entries` is `bound` or comes before it.
spec fn keys_at_most(entries: Seq<(String, Value)>, bound: Seq<char>) -> bool {
    forall|i: int|
        0 <= i < entries.len() ==> text_lt((#[trigger] entries[i]).0@, bound) || entries[i].0@
            == bound
}

/// The open objects lie along `path`: each below the root is named by the
/// segment that leads to it, each holds its keys in order, and each but the
/// deepest holds only keys that come before the segment that leads on.
spec fn chain(frames: Seq<Frame>, path: Seq<Seq<char>>) -> bool {
    &&& 1 <= frames.len() <= path.len()
    &&& forall|j: int| 1 <= j < frames.len() ==> (#[trigger] frames[j]).name@ == path[j - 1]
    &&& forall|j: int| 0 <= j < frames.len() ==> keys_increasing((#[trigger] frames[j]).entries@)
    &&& forall|j: int|
        0 <= j < frames.len() - 1 ==> keys_below((#[trigger] frames[j]).entries@, path[j])
}

/// Whether the pairs are in the order of their paths.
pub fn is_sorted(pairs: &Vec<EnvPair>) -> (sorted: bool)
    ensures
        sorted == paths_sorted(pairs_view(pairs@)),
{
    let ghost pv = pairs_view(pairs@);
    let mut i: usize = 1;
    while i < pairs.len()
        invariant
            1 <= i,
            pv == pairs_view(pairs@),
            forall|a: int, b: int|
                #![trigger pv[a], pv[b]]
                0 <= a < b < i && b < pv.len() ==> path_le(pv[a].path, pv[b].path),
        decreases pairs.len() - i,
    {
        match pairs[i - 1].compare(&pairs[i]) {
            Relation::After => {
                proof {
                    lemma_path_order_total(pv[i - 1].path, pv[i as int].path);
                }
                return false;
            },
            _ => {},
        }
        proof {
            assert forall|a: int, b: int|
                #![trigger pv[a], pv[b]]
                0 <= a < b < i + 1 && b < pv.len() implies path_le(pv[a].path, pv[b].path) by {
                if b == i && a < i - 1 {
                    lemma_path_order_transitive(pv[a].path, pv[i - 1].path, pv[i as int].path);
                }
            }
        }
        i += 1;
    }
    true
}

/// A copy of `path`.
fn clone_path(path: &Vec<String>) -> (copy: Vec<String>)
    ensures
        path_view(copy@) == path_view(path@),
{
    let mut copy: Vec<String> = Vec::new();
    let mut i: usize = 0;
    while i < path.len()
        invariant
            i <= path.len(),
            copy@.len() == i,
            path_view(copy@) == path_view(path@).take(i as int),
        decreases path.len() - i,
    {
        let ghost before = copy@;
        let segment: String = path[i].clone();
        assert(segment@ == path_view(path@)[i as int]);
        copy.push(segment);
        assert forall|j: int| 0 <= j < i + 1 implies path_view(copy@)[j] == path_view(path@).take(
            i + 1,
        )[j] by {
            if j < i {
                assert(path_view(before)[j] == path_view(path@).take(i as int)[j]);
            }
        }
        assert(path_view(copy@) =~= path_view(path@).take(i + 1));
        i += 1;
    }
    assert(path_view(path@).take(path.len() as int) =~= path_view(path@));
    copy
}

/// Closes the deepest open objects, each into the one above it, until
/// `depth` objects are open above the deepest.
fn close_frames(stack: Vec<Frame>, current: Frame, depth: usize, Ghost(path): Ghost<Seq<Seq<char>>>) -> (r: (
    Vec<Frame>,
    Frame,
))
    requires
        depth <= stack.len(),
        chain(stack@.push(current), path),
        keys_at_most(current.entries@, path[stack.len() as int]),
    ensures
        r.0.len() == depth,
        chain(r.0@.push(r.1), path),
        keys_at_most(r.1.entries@, path[depth as int]),
        collapse(opens(r.0@.push(r.1)), 0) == collapse(opens(stack@.push(current)), 0),
{
    let ghost start = stack@.push(current);
    let mut stack = stack;
    let mut current = current;
    while stack.len() > depth
        invariant
            depth <= stack.len(),
            chain(stack@.push(current), path),
            keys_at_most(current.entries@, path[stack.len() as int]),
            collapse(opens(stack@.push(current)), 0) == collapse(opens(start), 0),
        decreases stack.len(),
    {
        let ghost before = stack@.push(current);
        let ghost d = stack.len() as int;
        let parent = stack.pop().unwrap();
        assert(before[d - 1] == parent);
        assert(before[d] == current);
        let Frame { name, entries } = current;
        let ghost child_name = name@;
        let ghost child_object = entries_view(entries@);
        let object = ObjectMap::from_sorted(entries);
        let Frame { name: parent_name, entries: mut siblings } = parent;
        let ghost elder = siblings@;
        assert(keys_below(elder, path[d - 1]));
        assert(child_name == path[d - 1]);
        let closed = Value::Object(object);
        assert(closed@ == ValueView::Object(child_object));
        siblings.push((name, closed));
        proof {
            assert(siblings@.drop_last() =~= elder);
            assert forall|a: int, b: int| 0 <= a < b < siblings@.len() implies text_lt(
                (#[trigger] siblings@[a]).0@,
                (#[trigger] siblings@[b]).0@,
            ) by {
                if b < elder.len() {
                    assert(siblings@[a] == elder[a] && siblings@[b] == elder[b]);
                } else {
                    assert(siblings@[a] == elder[a]);
                }
            }
            assert forall|a: int| 0 <= a < siblings@.len() implies text_lt(
                (#[trigger] siblings@[a]).0@,
                path[d - 1],
            ) || siblings@[a].0@ == path[d - 1] by {
                if a < elder.len() {
                    assert(siblings@[a] == elder[a]);
                }
            }
        }
        current = Frame { name: parent_name, entries: siblings };
        proof {
            let after = stack@.push(current);
            assert forall|j: int| 0 <= j < after.len() - 1 implies after[j] == before[j] by {}
            assert forall|j: int| 1 <= j < after.len() implies (#[trigger] after[j]).name@ == path[j
                - 1] by {
                assert(after[j].name@ == before[j].name@);
            }
            assert forall|j: int| 0 <= j < after.len() implies keys_increasing(
                (#[trigger] after[j]).entries@,
            ) by {
                if j < after.len() - 1 {
                    assert(after[j] == before[j]);
                }
            }
            assert forall|j: int| 0 <= j < after.len() - 1 implies keys_below(
                (#[trigger] after[j]).entries@,
                path[j],
            ) by {
                assert(after[j] == before[j]);
            }
            let ob = opens(before);
            let oa = opens(after);
            assert forall|k: int| 0 <= k < oa.len() - 1 implies oa[k] == ob[k] by {
                assert(after[k] == before[k]);
            }
            lemma_close(ob, oa, 0);
        }
    }
    (stack, current)
}

/// Opens an empty object for each segment of `path`, but the last, that has
/// none open yet.
fn open_frames(stack: Vec<Frame>, current: Frame, path: &Vec<String>) -> (r: (Vec<Frame>, Frame))
    requires
        stack.len() < path.len(),
        chain(stack@.push(current), path_view(path@)),
        keys_below(current.entries@, path_view(path@)[stack.len() as int]),
    ensures
        r.0.len() + 1 == path.len(),
        chain(r.0@.push(r.1), path_view(path@)),
        keys_below(r.1.entries@, path_view(path@)[path.len() - 1]),
        forall|k: int|
            0 <= k <= stack.len() ==> (#[trigger] opens(r.0@.push(r.1))[k]) == opens(
                stack@.push(current),
            )[k],
        forall|k: int|
            stack.len() < k < path.len() ==> (#[trigger] opens(r.0@.push(r.1))[k]).object
                == Map::<Seq<char>, ValueView>::empty(),
{
    let ghost start = stack@.push(current);
    let ghost pv = path_view(path@);
    let ghost first = stack.len() as int;
    let mut stack = stack;
    let mut current = current;
    while stack.len() + 1 < path.len()
        invariant
            first <= stack.len() < path.len(),
            start.len() == first + 1,
            pv == path_view(path@),
            chain(stack@.push(current), pv),
            keys_below(current.entries@, pv[stack.len() as int]),
            forall|k: int|
                0 <= k <= first ==> (#[trigger] opens(stack@.push(current))[k]) == opens(start)[k],
            forall|k: int|
                first < k <= stack.len() ==> (#[trigger] opens(stack@.push(current))[k]).object
                    == Map::<Seq<char>, ValueView>::empty(),
        decreases path.len() - stack.len(),
    {
        let ghost before = stack@.push(current);
        let ghost d = stack.len() as int;
        let name = path[stack.len()].clone();
        assert(name@ == pv[d]);
        stack.push(current);
        current = Frame { name, entries: Vec::new() };
        proof {
            let after = stack@.push(current);
            assert forall|j: int| 0 <= j <= d implies after[j] == before[j] by {}
            assert(after[d + 1] == current);
            assert forall|j: int| 1 <= j < after.len() implies (#[trigger] after[j]).name@ == pv[j
                - 1] by {
                if j <= d {
                    assert(after[j] == before[j]);
                }
            }
            assert forall|j: int| 0 <= j < after.len() implies keys_increasing(
                (#[trigger] after[j]).entries@,
            ) by {
                if j <= d {
                    assert(after[j] == before[j]);
                }
            }
            assert forall|j: int| 0 <= j < after.len() - 1 implies keys_below(
                (#[trigger] after[j]).entries@,
                pv[j],
            ) by {
                assert(after[j] == before[j]);
            }
            assert forall|k: int| 0 <= k <= first implies (#[trigger] opens(after)[k]) == opens(
                start,
            )[k] by {
                assert(after[k] == before[k]);
                assert(opens(before)[k] == opens(start)[k]);
            }
            assert forall|k: int| first < k <= d + 1 implies (#[trigger] opens(after)[k]).object
                == Map::<Seq<char>, ValueView>::empty() by {
                if k <= d {
                    assert(after[k] == before[k]);
                    assert(opens(before)[k].object == Map::<Seq<char>, ValueView>::empty());
                }
            }
        }
    }
    (stack, current)
}

/// The path before, as texts.
spec fn prev_view(prev: Option<&Vec<String>>) -> Option<Seq<Seq<char>>> {
    match prev {
        Some(q) => Some(path_view(q@)),
        None => None,
    }
}

/// Places one pair: closes what the path leaves, opens what it enters, and
/// binds its last segment to its value.
fn place_pair(stack: Vec<Frame>, current: Frame, prev: Option<&Vec<String>>, pair: &EnvPair) -> (r:
    Result<(Vec<Frame>, Frame), AssembleError>)
    requires
        match prev {
            None => stack@.len() == 0 && current.entries@.len() == 0,
            Some(q) => {
                &&& stack@.len() + 1 == q@.len()
                &&& chain(stack@.push(current), path_view(q@))
                &&& keys_at_most(current.entries@, path_view(q@).last())
                &&& path_le(path_view(q@), pair@.path)
            },
        },
    ensures
        match r {
            Ok(open) => {
                &&& spec_place(
                    collapse(opens(stack@.push(current)), 0),
                    prev_view(prev),
                    pair@,
                ) == Ok::<Map<Seq<char>, ValueView>, AssembleErrorView>(
                    collapse(opens(open.0@.push(open.1)), 0),
                )
                &&& open.0@.len() + 1 == pair@.path.len()
                &&& chain(open.0@.push(open.1), pair@.path)
                &&& keys_at_most(open.1.entries@, pair@.path.last())
            },
            Err(e) => spec_place(collapse(opens(stack@.push(current)), 0), prev_view(prev), pair@)
                == Err::<Map<Seq<char>, ValueView>, AssembleErrorView>(e@),
        },
{
    let path = pair.fields();
    let ghost p = path_view(path@);
    let ghost tree = collapse(opens(stack@.push(current)), 0);
    let mut stack = stack;
    let mut current = current;
    let mut repeated = false;
    match prev {
        Some(prev) => {
            let ghost q = path_view(prev@);
            let common = common_prefix(prev, path);
            proof {
                lemma_common_prefix_len(q, p);
                lemma_common_prefix_is(q, q, q.len() as int);
            }
            if common == prev.len() {
                if path.len() > common {
                    return Err(AssembleError::TypeConflict(clone_path(prev)));
                }
                assert(q =~= p);
                repeated = true;
            } else {
                let closed = close_frames(stack, current, common, Ghost(q));
                stack = closed.0;
                current = closed.1;
                proof {
                    let c = common as int;
                    assert(text_lt(q[c], p[c]));
                    assert forall|k: int| 0 <= k < current.entries@.len() implies text_lt(
                        (#[trigger] current.entries@[k]).0@,
                        p[c],
                    ) by {
                        lemma_text_order_transitive(current.entries@[k].0@, q[c], p[c]);
                    }
                    let frames = stack@.push(current);
                    assert forall|j: int| 1 <= j < frames.len() implies (#[trigger] frames[j]).name@
                        == p[j - 1] by {
                        assert(q[j - 1] == p[j - 1]);
                    }
                    assert forall|j: int| 0 <= j < frames.len() - 1 implies keys_below(
                        (#[trigger] frames[j]).entries@,
                        p[j],
                    ) by {
                        assert(q[j] == p[j]);
                    }
                }
            }
        },
        None => {},
    }
    let ghost before = stack@.push(current);
    if !repeated {
        assert(chain(before, p));
        let opened = open_frames(stack, current, path);
        stack = opened.0;
        current = opened.1;
    }
    let ghost opened = stack@.push(current);
    let value = match Value::parse(pair.value()) {
        Ok(value) => value,
        Err(e) => {
            return Err(AssembleError::from_value_error(e));
        },
    };
    if repeated {
        return Err(AssembleError::DuplicateKey(clone_path(path)));
    }
    let last = path.len() - 1;
    let key = path[last].clone();
    assert(key@ == p[last as int]);
    let ghost v = value@;
    let ghost elder = current.entries@;
    proof {
        assert(opened[last as int] == current);
        assert(keys_increasing(elder));
        assert(keys_below(elder, p[last as int]));
    }
    let Frame { name, entries: mut entries } = current;
    entries.push((key, value));
    proof {
        assert(entries@.drop_last() =~= elder);
        assert forall|a: int, b: int| 0 <= a < b < entries@.len() implies text_lt(
            (#[trigger] entries@[a]).0@,
            (#[trigger] entries@[b]).0@,
        ) by {
            if b < elder.len() {
                assert(entries@[a] == elder[a] && entries@[b] == elder[b]);
            } else {
                assert(entries@[a] == elder[a]);
            }
        }
        assert forall|a: int| 0 <= a < entries@.len() implies text_lt(
            (#[trigger] entries@[a]).0@,
            p[last as int],
        ) || entries@[a].0@ == p[last as int] by {
            if a < elder.len() {
                assert(entries@[a] == elder[a]);
            }
        }
    }
    current = Frame { name, entries };
    proof {
        let after = stack@.push(current);
        let c = before.len() - 1;
        let m = p.len() as int;
        assert(after.len() == m);
        assert forall|j: int| 0 <= j < m - 1 implies after[j] == opened[j] by {}
        assert(after[m - 1].name@ == opened[m - 1].name@);
        assert forall|j: int| 1 <= j < after.len() implies (#[trigger] after[j]).name@ == p[j
            - 1] by {
            assert(after[j].name@ == opened[j].name@);
        }
        assert forall|j: int| 0 <= j < after.len() implies keys_increasing(
            (#[trigger] after[j]).entries@,
        ) by {
            if j < m - 1 {
                assert(after[j] == opened[j]);
            }
        }
        assert forall|j: int| 0 <= j < after.len() - 1 implies keys_below(
            (#[trigger] after[j]).entries@,
            p[j],
        ) by {
            assert(after[j] == opened[j]);
        }
        let ob = opens(before);
        let oo = opens(opened);
        let oa = opens(after);
        assert forall|k: int| 1 <= k < oa.len() implies (#[trigger] oa[k]).name == p[k - 1] by {
            assert(after[k].name@ == p[k - 1]);
        }
        assert forall|k: int| 1 <= k < ob.len() implies (#[trigger] ob[k]).name == p[k - 1] by {
            assert(before[k].name@ == p[k - 1]);
        }
        assert forall|k: int| 0 <= k < ob.len() - 1 implies (#[trigger] oa[k]).object
            == ob[k].object by {
            assert(after[k] == opened[k]);
            assert(oo[k] == ob[k]);
        }
        assert(!ob.last().object.dom().contains(p[c])) by {
            lemma_entries_view(before[c].entries@);
            if entries_view(before[c].entries@).dom().contains(p[c]) {
                let a = choose|a: int|
                    0 <= a < before[c].entries@.len() && (#[trigger] before[c].entries@[a]).0@
                        == p[c];
                lemma_text_order_total(p[c], p[c]);
            }
        }
        assert(oa[m - 1].object == oo[m - 1].object.insert(p[m - 1], v));
        assert(oo[c] == ob[c]);
        if c < m - 1 {
            assert(after[c] == opened[c]);
            assert(oa[c] == oo[c]);
        }
        assert forall|k: int| ob.len() <= k < oa.len() implies (#[trigger] oa[k]).object == if k
            == p.len() - 1 {
            Map::<Seq<char>, ValueView>::empty().insert(p[k], v)
        } else {
            Map::<Seq<char>, ValueView>::empty()
        } by {
            assert(oo[k].object == Map::<Seq<char>, ValueView>::empty());
            if k < m - 1 {
                assert(after[k] == opened[k]);
            }
        }
        lemma_put(ob, oa, p, v, 0);
        assert(p.skip(0) =~= p);
    }
    Ok((stack, current))
}

/// Assembles the tree of a stream of pairs.
///
/// The pairs must come in the order of their paths; a stream that does not
/// is refused as a whole. Of a sorted stream the first pair that cannot be
/// placed decides the error: its path passes through the path before it,
/// its value reads as nothing, or its path repeats the path before it.
pub fn assemble(pairs: &Vec<EnvPair>) -> (r: Result<Value, AssembleError>)
    ensures
        assemble_result_view(r) == spec_assemble(pairs_view(pairs@)),
        r matches Ok(v) ==> v@ is Object,
{
    if !is_sorted(pairs) {
        return Err(AssembleError::UnsortedInput);
    }
    let ghost pv = pairs_view(pairs@);
    let mut stack: Vec<Frame> = Vec::new();
    let mut current = Frame { name: String::new(), entries: Vec::new() };
    let mut i: usize = 0;
    while i < pairs.len()
        invariant
            i <= pairs.len(),
            pv == pairs_view(pairs@),
            paths_sorted(pv),
            i == 0 ==> stack@.len() == 0 && current.entries@.len() == 0,
            i > 0 ==> {
                &&& stack@.len() + 1 == pv[i - 1].path.len()
                &&& chain(stack@.push(current), pv[i - 1].path)
                &&& keys_at_most(current.entries@, pv[i - 1].path.last())
            },
            spec_build(pv.take(i as int)) == Ok::<Map<Seq<char>, ValueView>, AssembleErrorView>(
                collapse(opens(stack@.push(current)), 0),
            ),
        decreases pairs.len() - i,
    {
        proof {
            lemma_build_step(pv, i as int);
        }
        let prev = if i > 0 {
            Some(pairs[i - 1].fields())
        } else {
            None
        };
        match place_pair(stack, current, prev, &pairs[i]) {
            Ok(open) => {
                stack = open.0;
                current = open.1;
            },
            Err(e) => {
                proof {
                    lemma_build_error_stays(pv, i + 1);
                }
                return Err(e);
            },
        }
        i += 1;
    }
    assert(pv.take(pairs.len() as int) =~= pv);
    if pairs.len() > 0 {
        let ghost last = pv[pairs.len() - 1].path;
        let closed = close_frames(stack, current, 0, Ghost(last));
        stack = closed.0;
        current = closed.1;
    }
    Ok(Value::Object(ObjectMap::from_sorted(current.entries)))
}

impl Envs {
    /// Assembles the tree of the pairs. They are sorted, so the order is
    /// never what fails.
    pub fn assemble(&self) -> (r: Result<Value, AssembleError>)
        ensures
            paths_sorted(self@),
            assemble_result_view(r) == spec_assemble(self@),
            r matches Ok(v) ==> v@ is Object,
    {
        assemble(self.pairs())
    }
}

} // verus!
