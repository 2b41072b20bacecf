//! Pairs and streams of pairs.
//!
//! A pair is a key, parted into the segments of a path, and the raw text of
//! a value. Lines are read into pairs, and `Envs` keeps pairs in the order
//! of their paths, which is the order the assembler asks for.

use crate::order::{
    compare_paths, lemma_path_order_total, lemma_path_order_transitive, path_le, path_lt,
    path_view, Relation,
};
use crate::text::{string_of, texts_of, to_chars, trim, trim_slice};
use vstd::prelude::*;
use vstd::seq_lib::to_multiset_insert;
use vstd::slice::slice_subrange;

verus! {

/// A pair as a mathematical value.
pub struct PairView {
    pub path: Seq<Seq<char>>,
    pub raw: Seq<char>,
}

/// The first position at or after `from` that holds `c`.
pub open spec fn find_char(s: Seq<char>, c: char, from: int) -> Option<int>
    decreases s.len() - from,
{
    if from < 0 || from >= s.len() {
        None
    } else if s[from] == c {
        Some(from)
    } else {
        find_char(s, c, from + 1)
    }
}

/// The first position at or after `from` where `sep` stands in `s`.
pub open spec fn find_text(s: Seq<char>, sep: Seq<char>, from: int) -> Option<int>
    decreases s.len() - from + 1,
{
    if from < 0 || from + sep.len() > s.len() {
        None
    } else if s.subrange(from, from + sep.len()) == sep {
        Some(from)
    } else {
        find_text(s, sep, from + 1)
    }
}

/// The pieces of `s` between the occurrences of `sep`, taken from the left
/// and without overlap. An empty separator parts nothing.
pub open spec fn split_on(s: Seq<char>, sep: Seq<char>) -> Seq<Seq<char>>
    decreases s.len(),
{
    if sep.len() == 0 {
        seq![s]
    } else {
        match find_text(s, sep, 0) {
            Some(i) if 0 <= i && i + sep.len() <= s.len() => seq![s.take(i)] + split_on(
                s.skip(i + sep.len()),
                sep,
            ),
            _ => seq![s],
        }
    }
}

/// The pair that a line writes. The line is trimmed; a line that begins with
/// the comment mark or holds no `kv_sep` writes none. What stands before the
/// first `kv_sep` is the key, split on `key_sep`; what stands behind it is
/// the value.
pub open spec fn spec_pair_of_line(
    line: Seq<char>,
    comment: char,
    kv_sep: char,
    key_sep: Seq<char>,
) -> Option<PairView> {
    let s = trim(line);
    if s.len() > 0 && s.first() == comment {
        None
    } else {
        match find_char(s, kv_sep, 0) {
            Some(i) => Some(PairView { path: split_on(s.take(i), key_sep), raw: s.skip(i + 1) }),
            None => None,
        }
    }
}

/// Whether no pair comes before a pair in front of it.
pub open spec fn paths_sorted(pairs: Seq<PairView>) -> bool {
    forall|i: int, j: int|
        #![trigger pairs[i], pairs[j]]
        0 <= i < j < pairs.len() ==> path_le(pairs[i].path, pairs[j].path)
}

/// The lines of a text: the pieces between its line feeds.
pub open spec fn split_lines(text: Seq<char>) -> Seq<Seq<char>>
    decreases text.len(),
{
    match find_char(text, '\n', 0) {
        Some(i) if 0 <= i < text.len() => seq![text.take(i)] + split_lines(text.skip(i + 1)),
        _ => seq![text],
    }
}

/// The pairs that lines write, in the order of the lines.
pub open spec fn spec_pairs_of_lines(
    lines: Seq<Seq<char>>,
    comment: char,
    kv_sep: char,
    key_sep: Seq<char>,
) -> Seq<PairView>
    decreases lines.len(),
{
    if lines.len() == 0 {
        Seq::empty()
    } else {
        let before = spec_pairs_of_lines(lines.drop_last(), comment, kv_sep, key_sep);
        match spec_pair_of_line(lines.last(), comment, kv_sep, key_sep) {
            Some(pair) => before.push(pair),
            None => before,
        }
    }
}

/// The first position at or after `from` that holds a pair whose path comes
/// after `path`.
pub open spec fn insert_position(pairs: Seq<PairView>, path: Seq<Seq<char>>, from: int) -> int
    decreases pairs.len() - from,
{
    if 0 <= from < pairs.len() && !path_lt(path, pairs[from].path) {
        insert_position(pairs, path, from + 1)
    } else {
        from
    }
}

/// Sorted pairs with one pair more: it goes behind every pair that does not
/// come after it.
pub open spec fn insert_sorted(pairs: Seq<PairView>, pair: PairView) -> Seq<PairView> {
    pairs.insert(insert_position(pairs, pair.path, 0), pair)
}

/// The pairs in the order of their paths; pairs with one path keep the order
/// they came in.
pub open spec fn spec_sort(pairs: Seq<PairView>) -> Seq<PairView>
    decreases pairs.len(),
{
    if pairs.len() == 0 {
        Seq::empty()
    } else {
        insert_sorted(spec_sort(pairs.drop_last()), pairs.last())
    }
}

/// The pairs as mathematical values.
pub open spec fn pairs_view(pairs: Seq<EnvPair>) -> Seq<PairView> {
    pairs.map_values(|p: EnvPair| p@)
}

/// Where a pair is inserted: behind pairs that do not come after it, before
/// a pair that does.
pub proof fn lemma_insert_position(pairs: Seq<PairView>, path: Seq<Seq<char>>, from: int)
    requires
        0 <= from <= pairs.len(),
    ensures
        from <= insert_position(pairs, path, from) <= pairs.len(),
        forall|j: int|
            from <= j < insert_position(pairs, path, from) ==> !path_lt(
                path,
                (#[trigger] pairs[j]).path,
            ),
        insert_position(pairs, path, from) < pairs.len() ==> path_lt(
            path,
            pairs[insert_position(pairs, path, from)].path,
        ),
    decreases pairs.len() - from,
{
    if from < pairs.len() && !path_lt(path, pairs[from].path) {
        lemma_insert_position(pairs, path, from + 1);
    }
}

/// Inserting into sorted pairs leaves them sorted.
pub proof fn lemma_insert_sorted(pairs: Seq<PairView>, pair: PairView)
    requires
        paths_sorted(pairs),
    ensures
        paths_sorted(insert_sorted(pairs, pair)),
        insert_sorted(pairs, pair).to_multiset() == pairs.to_multiset().insert(pair),
        insert_sorted(pairs, pair).len() == pairs.len() + 1,
{
    let pos = insert_position(pairs, pair.path, 0);
    lemma_insert_position(pairs, pair.path, 0);
    let after = insert_sorted(pairs, pair);
    assert forall|i: int, j: int| 0 <= i < j < after.len() implies path_le(
        (#[trigger] after[i]).path,
        (#[trigger] after[j]).path,
    ) by {
        let i0 = if i < pos {
            i
        } else {
            i - 1
        };
        let j0 = if j < pos {
            j
        } else {
            j - 1
        };
        if i == pos {
            assert(after[j] == pairs[j0]);
            if j0 > pos {
                assert(path_le(pairs[pos].path, pairs[j0].path));
            }
            lemma_path_order_transitive(pair.path, pairs[pos].path, pairs[j0].path);
        } else if j == pos {
            assert(after[i] == pairs[i0]);
            assert(!path_lt(pair.path, pairs[i0].path));
            lemma_path_order_total(pair.path, pairs[i0].path);
        } else {
            assert(after[i] == pairs[i0] && after[j] == pairs[j0]);
            assert(path_le(pairs[i0].path, pairs[j0].path));
        }
    }
    to_multiset_insert(pairs, pos, pair);
}

/// Sorting gives the same pairs, in the order of their paths.
pub proof fn lemma_sort(pairs: Seq<PairView>)
    ensures
        paths_sorted(spec_sort(pairs)),
        spec_sort(pairs).to_multiset() == pairs.to_multiset(),
        spec_sort(pairs).len() == pairs.len(),
    decreases pairs.len(),
{
    broadcast use vstd::seq_lib::group_to_multiset_ensures;

    if pairs.len() > 0 {
        lemma_sort(pairs.drop_last());
        lemma_insert_sorted(spec_sort(pairs.drop_last()), pairs.last());
        assert(pairs.drop_last().push(pairs.last()) =~= pairs);
    } else {
        assert(pairs =~= Seq::<PairView>::empty());
    }
}

/// Every split has a piece.
pub proof fn lemma_split_on_nonempty(s: Seq<char>, sep: Seq<char>)
    ensures
        split_on(s, sep).len() > 0,
{
}

/// A path and the raw text of the value that belongs there.
#[derive(Debug, PartialEq, Eq)]
pub struct EnvPair {
    fields: Vec<String>,
    value: String,
}

impl View for EnvPair {
    type V = PairView;

    closed spec fn view(&self) -> PairView {
        PairView { path: path_view(self.fields@), raw: self.value@ }
    }
}

impl EnvPair {
    #[verifier::type_invariant]
    spec fn inv(self) -> bool {
        self.fields@.len() > 0
    }

    /// The pair of a path and a raw value; none where the path has no segment.
    pub fn new(fields: Vec<String>, value: String) -> (r: Option<EnvPair>)
        ensures
            r is Some <==> fields@.len() > 0,
            r matches Some(pair) ==> pair@ == (PairView { path: path_view(fields@), raw: value@ }),
    {
        if fields.len() > 0 {
            Some(EnvPair { fields, value })
        } else {
            None
        }
    }

    /// The segments of the path, outermost first. There is at least one.
    pub fn fields(&self) -> (fields: &Vec<String>)
        ensures
            path_view(fields@) == self@.path,
            fields@.len() > 0,
    {
        proof {
            use_type_invariant(self);
        }
        &self.fields
    }

    /// The raw text of the value.
    pub fn value(&self) -> (value: &str)
        ensures
            value@ == self@.raw,
    {
        self.value.as_str()
    }

    /// How the path of this pair stands to the path of `other`.
    pub fn compare(&self, other: &EnvPair) -> (r: Relation)
        ensures
            r is Before <==> path_lt(self@.path, other@.path),
            r is Same <==> self@.path == other@.path,
            r is After <==> path_lt(other@.path, self@.path),
    {
        compare_paths(&self.fields, &other.fields)
    }

    /// Reads one line.
    pub fn from_str(line: &str, comment: char, kv_sep: char, key_sep: &str) -> (r: Option<Self>)
        ensures
            match r {
                Some(pair) => spec_pair_of_line(line@, comment, kv_sep, key_sep@) == Some(pair@),
                None => spec_pair_of_line(line@, comment, kv_sep, key_sep@) is None,
            },
    {
        let chars = to_chars(line);
        let sep = to_chars(key_sep);
        EnvPair::from_chars(chars.as_slice(), comment, kv_sep, sep.as_slice())
    }

    /// Reads one line from characters.
    pub fn from_chars(line: &[char], comment: char, kv_sep: char, key_sep: &[char]) -> (r: Option<
        Self,
    >)
        ensures
            match r {
                Some(pair) => spec_pair_of_line(line@, comment, kv_sep, key_sep@) == Some(pair@),
                None => spec_pair_of_line(line@, comment, kv_sep, key_sep@) is None,
            },
    {
        let s = trim_slice(line);
        if s.len() > 0 && s[0] == comment {
            return None;
        }
        match find_char_in(s, kv_sep) {
            None => None,
            Some(i) => {
                let fields = split_key(slice_subrange(s, 0, i), key_sep);
                let value = string_of(slice_subrange(s, i + 1, s.len()));
                assert(s@.subrange(0, i as int) =~= s@.take(i as int));
                assert(s@.subrange(i + 1, s@.len() as int) =~= s@.skip(i + 1));
                Some(EnvPair { fields, value })
            },
        }
    }
}

/// The first position of `s` that holds `c`.
fn find_char_in(s: &[char], c: char) -> (r: Option<usize>)
    ensures
        match r {
            Some(i) => find_char(s@, c, 0) == Some(i as int) && i < s@.len(),
            None => find_char(s@, c, 0) is None,
        },
{
    let mut i: usize = 0;
    while i < s.len()
        invariant
            find_char(s@, c, 0) == find_char(s@, c, i as int),
        decreases s.len() - i,
    {
        if s[i] == c {
            return Some(i);
        }
        i += 1;
    }
    None
}

/// Whether `sep` stands in `s` at `at`.
fn stands_at(s: &[char], sep: &[char], at: usize) -> (r: bool)
    requires
        at + sep@.len() <= s@.len(),
    ensures
        r == (s@.subrange(at as int, at + sep@.len()) == sep@),
{
    let ghost piece = s@.subrange(at as int, at + sep@.len());
    let mut j: usize = 0;
    while j < sep.len()
        invariant
            j <= sep@.len() == sep.len(),
            at + sep.len() <= s.len(),
            piece == s@.subrange(at as int, at + sep@.len()),
            forall|k: int| 0 <= k < j ==> piece[k] == sep@[k],
        decreases sep.len() - j,
    {
        if s[at + j] != sep[j] {
            assert(piece[j as int] != sep@[j as int]);
            return false;
        }
        j += 1;
    }
    assert(piece =~= sep@);
    true
}

/// The first position of `s` where `sep` stands.
fn find_text_in(s: &[char], sep: &[char]) -> (r: Option<usize>)
    requires
        sep@.len() > 0,
    ensures
        match r {
            Some(i) => find_text(s@, sep@, 0) == Some(i as int) && i + sep@.len() <= s@.len(),
            None => find_text(s@, sep@, 0) is None,
        },
{
    if sep.len() > s.len() {
        return None;
    }
    let last = s.len() - sep.len();
    let mut i: usize = 0;
    while i <= last
        invariant
            last == s.len() - sep.len(),
            s.len() == s@.len(),
            sep.len() == sep@.len(),
            sep@.len() > 0,
            find_text(s@, sep@, 0) == find_text(s@, sep@, i as int),
        decreases last + 1 - i,
    {
        if stands_at(s, sep, i) {
            return Some(i);
        }
        i += 1;
    }
    None
}

/// The segments of a key.
fn split_key(key: &[char], sep: &[char]) -> (fields: Vec<String>)
    ensures
        path_view(fields@) == split_on(key@, sep@),
        fields@.len() > 0,
{
    let mut fields: Vec<String> = Vec::new();
    if sep.len() == 0 {
        fields.push(string_of(key));
        assert(path_view(fields@) =~= seq![key@]);
        return fields;
    }
    let end = key.len();
    let mut pos: usize = 0;
    assert(key@.skip(0) =~= key@);
    loop
        invariant
            pos <= end == key@.len(),
            sep@.len() > 0,
            split_on(key@, sep@) == path_view(fields@) + split_on(key@.skip(pos as int), sep@),
        decreases end - pos,
    {
        let rest = slice_subrange(key, pos, end);
        assert(rest@ =~= key@.skip(pos as int));
        let ghost before = path_view(fields@);
        match find_text_in(rest, sep) {
            Some(i) => {
                fields.push(string_of(slice_subrange(rest, 0, i)));
                assert(rest@.subrange(0, i as int) =~= rest@.take(i as int));
                assert(path_view(fields@) =~= before + seq![rest@.take(i as int)]);
                assert(rest@.skip(i + sep@.len()) =~= key@.skip(pos + i + sep@.len()));
                let ghost others = split_on(rest@.skip(i + sep@.len()), sep@);
                assert(before + (seq![rest@.take(i as int)] + others) =~= (before
                    + seq![rest@.take(i as int)]) + others);
                pos = pos + i + sep.len();
            },
            None => {
                fields.push(string_of(rest));
                assert(path_view(fields@) =~= before + seq![rest@]);
                return fields;
            },
        }
    }
}

/// Pairs in the order of their paths.
#[derive(Debug, PartialEq, Eq)]
pub struct Envs {
    pairs: Vec<EnvPair>,
}

impl View for Envs {
    type V = Seq<PairView>;

    closed spec fn view(&self) -> Seq<PairView> {
        pairs_view(self.pairs@)
    }
}

impl Default for Envs {
    /// No pairs.
    fn default() -> (envs: Self)
        ensures
            envs@ == Seq::<PairView>::empty(),
    {
        let envs = Envs { pairs: Vec::new() };
        assert(envs@ =~= Seq::<PairView>::empty());
        envs
    }
}

impl Envs {
    #[verifier::type_invariant]
    spec fn inv(self) -> bool {
        paths_sorted(pairs_view(self.pairs@))
    }

    /// The pairs, in the order of their paths.
    pub fn pairs(&self) -> (pairs: &Vec<EnvPair>)
        ensures
            pairs_view(pairs@) == self@,
            paths_sorted(self@),
    {
        proof {
            use_type_invariant(self);
        }
        &self.pairs
    }

    /// Adds a pair where its path belongs.
    pub fn insert(&mut self, pair: EnvPair)
        ensures
            final(self)@ == insert_sorted(old(self)@, pair@),
    {
        proof {
            use_type_invariant(&*self);
        }
        let mut pairs: Vec<EnvPair> = Vec::new();
        std::mem::swap(&mut pairs, &mut self.pairs);
        let ghost before = pairs_view(pairs@);
        let ghost path = pair@.path;
        let mut i: usize = 0;
        while i < pairs.len()
            invariant
                i <= pairs.len(),
                before == pairs_view(pairs@),
                path == pair@.path,
                insert_position(before, path, 0) == insert_position(before, path, i as int),
            ensures
                i <= pairs.len(),
                before == pairs_view(pairs@),
                insert_position(before, path, 0) == i,
            decreases pairs.len() - i,
        {
            match pair.compare(&pairs[i]) {
                Relation::Before => {
                    break ;
                },
                _ => {
                    proof {
                        lemma_path_order_total(path, before[i as int].path);
                    }
                },
            }
            i += 1;
        }
        let ghost added = pair@;
        pairs.insert(i, pair);
        proof {
            assert(pairs_view(pairs@) =~= before.insert(i as int, added));
            lemma_insert_sorted(before, added);
        }
        self.pairs = pairs;
    }

    /// The pairs that lines write, sorted. Lines that write no pair are
    /// passed over.
    pub fn from_lines(lines: &Vec<String>, comment: char, kv_sep: char, key_sep: &str) -> (envs:
        Self)
        ensures
            envs@ == spec_sort(spec_pairs_of_lines(texts_of(lines@), comment, kv_sep, key_sep@)),
    {
        let sep = to_chars(key_sep);
        let ghost lv = texts_of(lines@);
        let mut envs = Envs::default();
        let mut i: usize = 0;
        while i < lines.len()
            invariant
                i <= lines.len(),
                lv == texts_of(lines@),
                sep@ == key_sep@,
                envs@ == spec_sort(spec_pairs_of_lines(lv.take(i as int), comment, kv_sep, key_sep@)),
            decreases lines.len() - i,
        {
            let chars = to_chars(lines[i].as_str());
            assert(lv.take(i + 1).drop_last() =~= lv.take(i as int));
            let ghost before = spec_pairs_of_lines(lv.take(i as int), comment, kv_sep, key_sep@);
            match EnvPair::from_chars(chars.as_slice(), comment, kv_sep, sep.as_slice()) {
                Some(pair) => {
                    assert(before.push(pair@).drop_last() =~= before);
                    envs.insert(pair);
                },
                None => {},
            }
            i += 1;
        }
        assert(lv.take(lines.len() as int) =~= lv);
        envs
    }

    /// The pairs that the lines of a text write, sorted. Every text has its
    /// pairs, if none.
    pub fn from_str(raw: &str, comment: char, kv_sep: char, key_sep: &str) -> (r: Result<Self, ()>)
        ensures
            r is Ok,
            r->Ok_0@ == spec_sort(
                spec_pairs_of_lines(split_lines(raw@), comment, kv_sep, key_sep@),
            ),
    {
        let chars = to_chars(raw);
        let lines = lines_of(chars.as_slice());
        Ok(Envs::from_lines(&lines, comment, kv_sep, key_sep))
    }
}

/// The lines of a text.
pub fn lines_of(text: &[char]) -> (lines: Vec<String>)
    ensures
        texts_of(lines@) == split_lines(text@),
{
    let mut lines: Vec<String> = Vec::new();
    let end = text.len();
    let mut pos: usize = 0;
    assert(text@.skip(0) =~= text@);
    assert(texts_of(lines@) =~= Seq::<Seq<char>>::empty());
    loop
        invariant
            pos <= end == text@.len(),
            split_lines(text@) == texts_of(lines@) + split_lines(text@.skip(pos as int)),
        decreases end - pos,
    {
        let rest = slice_subrange(text, pos, end);
        assert(rest@ =~= text@.skip(pos as int));
        let ghost before = texts_of(lines@);
        match find_char_in(rest, '\n') {
            Some(i) => {
                lines.push(string_of(slice_subrange(rest, 0, i)));
                assert(rest@.subrange(0, i as int) =~= rest@.take(i as int));
                assert(texts_of(lines@) =~= before + seq![rest@.take(i as int)]);
                assert(rest@.skip(i + 1) =~= text@.skip(pos + i + 1));
                let ghost others = split_lines(rest@.skip(i + 1));
                assert(before + (seq![rest@.take(i as int)] + others) =~= (before
                    + seq![rest@.take(i as int)]) + others);
                pos = pos + i + 1;
            },
            None => {
                lines.push(string_of(rest));
                assert(texts_of(lines@) =~= before + seq![rest@]);
                return lines;
            },
        }
    }
}

} // verus!
