//! The index: three sorted collections with their invariants, the text of an
//! index file, and the changes that keep the invariants.

use vstd::prelude::*;

use crate::entity::{
    clean_line, classify_line, parse_area, parse_category, parse_id, Area, Category, Entry, Id, Keyed, Line,
};
use crate::error::Error;
use crate::entity::dir_name;
use crate::keyed::{
    entries, find_key, has_key, insert_by_key, insert_sorted, lemma_filter_keeps, lemma_filter_members,
    lemma_filter_sorted, lemma_insert_sorted, outside, retain_outside, sorted, sort_entries,
    unique_keys, parented, all_parented, sort_unique, same_keys, keys_match, lines_text, write_lines, lemma_rank, rank,
};

verus! {

/// What an index holds: its areas, categories and ids, each in key order.
pub struct IndexView {
    pub areas: Seq<Entry>,
    pub categories: Seq<Entry>,
    pub ids: Seq<Entry>,
}

impl IndexView {
    /// The index invariants: each collection is sorted by key and holds each key
    /// once, every category has its area and every id has its category.
    pub open spec fn wf(self) -> bool {
        &&& sorted(self.areas)
        &&& sorted(self.categories)
        &&& sorted(self.ids)
        &&& forall|i: int|
            0 <= i < self.categories.len() ==> has_key(
                self.areas,
                #[trigger] self.categories[i].key / 10,
            )
        &&& forall|i: int|
            0 <= i < self.ids.len() ==> has_key(self.categories, #[trigger] self.ids[i].key / 100)
    }

    pub open spec fn empty() -> IndexView {
        IndexView { areas: Seq::empty(), categories: Seq::empty(), ids: Seq::empty() }
    }

    /// Adds an area: it must be new.
    pub open spec fn add_area(self, e: Entry) -> Result<IndexView, Error> {
        if has_key(self.areas, e.key) {
            Err(Error::Duplicate)
        } else {
            Ok(IndexView { areas: insert_sorted(self.areas, e), ..self })
        }
    }

    /// Adds a category: it must be new and its area present.
    pub open spec fn add_category(self, e: Entry) -> Result<IndexView, Error> {
        if has_key(self.categories, e.key) {
            Err(Error::Duplicate)
        } else if !has_key(self.areas, e.key / 10) {
            Err(Error::Orphan)
        } else {
            Ok(IndexView { categories: insert_sorted(self.categories, e), ..self })
        }
    }

    /// Adds an id: it must be new and its category present.
    pub open spec fn add_id(self, e: Entry) -> Result<IndexView, Error> {
        if has_key(self.ids, e.key) {
            Err(Error::Duplicate)
        } else if !has_key(self.categories, e.key / 100) {
            Err(Error::Orphan)
        } else {
            Ok(IndexView { ids: insert_sorted(self.ids, e), ..self })
        }
    }

    /// Removes the area with key `k`, with its categories and their ids.
    pub open spec fn remove_area(self, k: nat) -> Result<IndexView, Error> {
        if !has_key(self.areas, k) {
            Err(Error::NotFound)
        } else {
            Ok(
                IndexView {
                    areas: self.areas.filter(outside(1, k)),
                    categories: self.categories.filter(outside(10, k)),
                    ids: self.ids.filter(outside(1000, k)),
                },
            )
        }
    }

    /// Removes the category with key `k`, with its ids.
    pub open spec fn remove_category(self, k: nat) -> Result<IndexView, Error> {
        if !has_key(self.categories, k) {
            Err(Error::NotFound)
        } else {
            Ok(
                IndexView {
                    categories: self.categories.filter(outside(1, k)),
                    ids: self.ids.filter(outside(100, k)),
                    ..self
                },
            )
        }
    }

    /// Removes the id with key `k`.
    pub open spec fn remove_id(self, k: nat) -> Result<IndexView, Error> {
        if !has_key(self.ids, k) {
            Err(Error::NotFound)
        } else {
            Ok(IndexView { ids: self.ids.filter(outside(1, k)), ..self })
        }
    }
}

/// The lines of a text: the pieces between line feeds.
pub open spec fn split_lines(t: Seq<char>) -> Seq<Seq<char>>
    decreases t.len(),
{
    if t.len() == 0 {
        seq![Seq::empty()]
    } else {
        let r = split_lines(t.drop_last());
        if t.last() == '\n' {
            r.push(Seq::empty())
        } else {
            r.update(r.len() - 1, r.last().push(t.last()))
        }
    }
}

/// `l` without its leading spaces.
pub open spec fn skip_spaces(l: Seq<char>) -> Seq<char>
    decreases l.len(),
{
    if l.len() > 0 && l[0] == ' ' {
        skip_spaces(l.drop_first())
    } else {
        l
    }
}

/// `l` without its leading spaces and the carriage return of a `\r\n` line end.
pub open spec fn trim_line(l: Seq<char>) -> Seq<char> {
    let t = skip_spaces(l);
    if t.len() > 0 && t.last() == '\r' {
        t.drop_last()
    } else {
        t
    }
}

/// Takes one line of an index file into `m`: a blank line changes nothing; any
/// other must be an id, a category or an area (tried in that order) that `m`
/// can take.
pub open spec fn take_line(m: IndexView, line: Seq<char>) -> Result<IndexView, Error> {
    let l = trim_line(line);
    if l.len() == 0 {
        Ok(m)
    } else if parse_id(l) is Ok {
        m.add_id(parse_id(l)->Ok_0)
    } else if parse_category(l) is Ok {
        m.add_category(parse_category(l)->Ok_0)
    } else if parse_area(l) is Ok {
        m.add_area(parse_area(l)->Ok_0)
    } else {
        Err(Error::Unrecognized)
    }
}

/// Takes the lines in order into an empty index; the first failure stops it.
pub open spec fn parse_lines(ls: Seq<Seq<char>>) -> Result<IndexView, Error>
    decreases ls.len(),
{
    if ls.len() == 0 {
        Ok(IndexView::empty())
    } else {
        match parse_lines(ls.drop_last()) {
            Ok(m) => take_line(m, ls.last()),
            Err(e) => Err(e),
        }
    }
}

/// What the text of an index file describes.
pub open spec fn parse_index(t: Seq<char>) -> Result<IndexView, Error> {
    parse_lines(split_lines(t))
}

/// Every text has at least one line.
proof fn lemma_split_lines_len(t: Seq<char>)
    ensures
        split_lines(t).len() >= 1,
    decreases t.len(),
{
    if t.len() > 0 {
        lemma_split_lines_len(t.drop_last());
    }
}

/// Skipping the `j` leading spaces of `l` leaves what follows them.
proof fn lemma_skip_spaces(l: Seq<char>, j: int)
    requires
        0 <= j <= l.len(),
        forall|k: int| 0 <= k < j ==> l[k] == ' ',
        j == l.len() || l[j] != ' ',
    ensures
        skip_spaces(l) == l.subrange(j, l.len() as int),
    decreases j,
{
    if j == 0 {
        assert(l.subrange(0, l.len() as int) =~= l);
    } else {
        let d = l.drop_first();
        assert forall|k: int| 0 <= k < j - 1 implies d[k] == ' ' by {
            assert(d[k] == l[k + 1]);
        }
        lemma_skip_spaces(d, j - 1);
        assert(d.subrange(j - 1, d.len() as int) =~= l.subrange(j, l.len() as int));
    }
}

/// The text of an index file for `m`: its areas, then its categories, then its
/// ids, one `<code> <title>` per line, so that each parent comes before its
/// children.
pub open spec fn index_text(m: IndexView) -> Seq<char> {
    lines_text(m.areas) + lines_text(m.categories) + lines_text(m.ids)
}

/// The index made of three lists in any order: no key may repeat within a list,
/// and every category and id needs its parent.
pub open spec fn from_lists(areas: Seq<Entry>, categories: Seq<Entry>, ids: Seq<Entry>) -> Result<
    IndexView,
    Error,
> {
    if !unique_keys(areas) || !unique_keys(categories) || !unique_keys(ids) {
        Err(Error::Duplicate)
    } else if !parented(categories, areas, 10) || !parented(ids, categories, 100) {
        Err(Error::Orphan)
    } else {
        Ok(
            IndexView {
                areas: sort_entries(areas),
                categories: sort_entries(categories),
                ids: sort_entries(ids),
            },
        )
    }
}

/// Parents found among `parents` are found among any list with the same keys.
proof fn lemma_parented_same_keys(
    children: Seq<Entry>,
    others: Seq<Entry>,
    parents: Seq<Entry>,
    sorted_parents: Seq<Entry>,
    d: nat,
)
    requires
        forall|k: nat| has_key(sorted_parents, k) <==> has_key(parents, k),
        forall|x: Entry| children.contains(x) <==> others.contains(x),
        parented(others, parents, d),
    ensures
        parented(children, sorted_parents, d),
{
    assert forall|i: int| 0 <= i < children.len() implies has_key(
        sorted_parents,
        #[trigger] children[i].key / d,
    ) by {
        assert(children.contains(children[i]));
        let j = choose|j: int| 0 <= j < others.len() && others[j] == children[i];
        assert(has_key(parents, others[j].key / d));
    }
}

/// An entry that a filter of `s` keeps with the key `k` shows `k` in the filter.
proof fn lemma_key_kept(s: Seq<Entry>, p: spec_fn(Entry) -> bool, k: nat)
    requires
        has_key(s, k),
        forall|e: Entry| e.key == k ==> #[trigger] p(e),
    ensures
        has_key(s.filter(p), k),
{
    let j = choose|j: int| 0 <= j < s.len() && #[trigger] s[j].key == k;
    lemma_filter_keeps(s, p, j);
    let f = s.filter(p);
    let m = choose|m: int| 0 <= m < f.len() && f[m] == s[j];
    assert(f[m].key == k);
}

/// Removing an area keeps the index invariants.
pub proof fn lemma_remove_area_wf(m: IndexView, k: nat)
    requires
        m.wf(),
        has_key(m.areas, k),
    ensures
        m.remove_area(k) is Ok,
        m.remove_area(k)->Ok_0.wf(),
{
    let r = m.remove_area(k)->Ok_0;
    lemma_filter_sorted(m.areas, outside(1, k));
    lemma_filter_sorted(m.categories, outside(10, k));
    lemma_filter_sorted(m.ids, outside(1000, k));
    lemma_filter_members(m.categories, outside(10, k));
    lemma_filter_members(m.ids, outside(1000, k));
    assert forall|i: int| 0 <= i < r.categories.len() implies has_key(
        r.areas,
        #[trigger] r.categories[i].key / 10,
    ) by {
        let c = r.categories[i];
        let j = choose|j: int| 0 <= j < m.categories.len() && m.categories[j] == c;
        assert(has_key(m.areas, m.categories[j].key / 10));
        lemma_key_kept(m.areas, outside(1, k), c.key / 10);
    }
    assert forall|i: int| 0 <= i < r.ids.len() implies has_key(
        r.categories,
        #[trigger] r.ids[i].key / 100,
    ) by {
        let x = r.ids[i];
        let j = choose|j: int| 0 <= j < m.ids.len() && m.ids[j] == x;
        assert(has_key(m.categories, m.ids[j].key / 100));
        vstd::arithmetic::div_mod::lemma_div_denominator(x.key as int, 100, 10);
        lemma_key_kept(m.categories, outside(10, k), x.key / 100);
    }
}

/// Removing a category keeps the index invariants.
pub proof fn lemma_remove_category_wf(m: IndexView, k: nat)
    requires
        m.wf(),
        has_key(m.categories, k),
    ensures
        m.remove_category(k) is Ok,
        m.remove_category(k)->Ok_0.wf(),
{
    let r = m.remove_category(k)->Ok_0;
    lemma_filter_sorted(m.categories, outside(1, k));
    lemma_filter_sorted(m.ids, outside(100, k));
    lemma_filter_members(m.categories, outside(1, k));
    lemma_filter_members(m.ids, outside(100, k));
    assert forall|i: int| 0 <= i < r.categories.len() implies has_key(
        r.areas,
        #[trigger] r.categories[i].key / 10,
    ) by {
        let c = r.categories[i];
        let j = choose|j: int| 0 <= j < m.categories.len() && m.categories[j] == c;
        assert(has_key(m.areas, m.categories[j].key / 10));
    }
    assert forall|i: int| 0 <= i < r.ids.len() implies has_key(
        r.categories,
        #[trigger] r.ids[i].key / 100,
    ) by {
        let x = r.ids[i];
        let j = choose|j: int| 0 <= j < m.ids.len() && m.ids[j] == x;
        assert(has_key(m.categories, m.ids[j].key / 100));
        lemma_key_kept(m.categories, outside(1, k), x.key / 100);
    }
}

/// Removing an id keeps the index invariants.
pub proof fn lemma_remove_id_wf(m: IndexView, k: nat)
    requires
        m.wf(),
        has_key(m.ids, k),
    ensures
        m.remove_id(k) is Ok,
        m.remove_id(k)->Ok_0.wf(),
{
    let r = m.remove_id(k)->Ok_0;
    lemma_filter_sorted(m.ids, outside(1, k));
    lemma_filter_members(m.ids, outside(1, k));
    assert forall|i: int| 0 <= i < r.ids.len() implies has_key(
        r.categories,
        #[trigger] r.ids[i].key / 100,
    ) by {
        let x = r.ids[i];
        let j = choose|j: int| 0 <= j < m.ids.len() && m.ids[j] == x;
        assert(has_key(m.categories, m.ids[j].key / 100));
    }
}

/// A failure on one line makes the text after it fail too.
proof fn lemma_failure_stays(ls: Seq<Seq<char>>, k: int)
    requires
        0 <= k <= ls.len(),
        parse_lines(ls.take(k)) is Err,
    ensures
        parse_lines(ls) is Err,
    decreases ls.len() - k,
{
    if k == ls.len() {
        assert(ls.take(k) =~= ls);
    } else {
        assert(ls.take(k + 1).drop_last() =~= ls.take(k));
        lemma_failure_stays(ls, k + 1);
    }
}

/// A line that can't be taken where it stands: a category whose area no earlier
/// line gave, an id whose category no earlier line gave, or a code that an
/// earlier line gave already.
pub open spec fn misplaced(m: IndexView, line: Seq<char>) -> bool {
    let l = trim_line(line);
    ||| parse_id(l) is Ok && has_key(m.ids, parse_id(l)->Ok_0.key)
    ||| parse_id(l) is Ok && !has_key(m.categories, parse_id(l)->Ok_0.key / 100)
    ||| parse_id(l) is Err && parse_category(l) is Ok && has_key(
        m.categories,
        parse_category(l)->Ok_0.key,
    )
    ||| parse_id(l) is Err && parse_category(l) is Ok && !has_key(
        m.areas,
        parse_category(l)->Ok_0.key / 10,
    )
    ||| parse_id(l) is Err && parse_category(l) is Err && parse_area(l) is Ok && has_key(
        m.areas,
        parse_area(l)->Ok_0.key,
    )
}

/// An index text is refused where a category comes before its area, an id
/// before its category, or a code a second time: the whole parse fails.
pub proof fn lemma_parse_rejects_misplaced(t: Seq<char>, k: int)
    requires
        0 <= k < split_lines(t).len(),
        parse_lines(split_lines(t).take(k)) is Ok,
        misplaced(parse_lines(split_lines(t).take(k))->Ok_0, split_lines(t)[k]),
    ensures
        parse_index(t) is Err,
{
    let ls = split_lines(t);
    assert(ls.take(k + 1).drop_last() =~= ls.take(k));
    assert(ls.take(k + 1).last() == ls[k]);
    let l = trim_line(ls[k]);
    if l.len() == 0 {
        assert(parse_id(l) is Err && parse_category(l) is Err && parse_area(l) is Err);
    }
    lemma_failure_stays(ls, k + 1);
}

/// Removing an area leaves none of its categories and ids behind; removing a
/// category leaves none of its ids behind.
pub proof fn lemma_remove_cascades(m: IndexView, k: nat)
    ensures
        m.remove_area(k) is Ok ==> {
            let r = m.remove_area(k)->Ok_0;
            &&& !has_key(r.areas, k)
            &&& forall|i: int| 0 <= i < r.categories.len() ==> #[trigger] r.categories[i].key / 10 != k
            &&& forall|i: int| 0 <= i < r.ids.len() ==> #[trigger] r.ids[i].key / 1000 != k
        },
        m.remove_category(k) is Ok ==> {
            let r = m.remove_category(k)->Ok_0;
            &&& !has_key(r.categories, k)
            &&& forall|i: int| 0 <= i < r.ids.len() ==> #[trigger] r.ids[i].key / 100 != k
        },
{
    lemma_filter_members(m.areas, outside(1, k));
    lemma_filter_members(m.categories, outside(10, k));
    lemma_filter_members(m.ids, outside(1000, k));
    lemma_filter_members(m.categories, outside(1, k));
    lemma_filter_members(m.ids, outside(100, k));
    if m.remove_area(k) is Ok {
        let r = m.remove_area(k)->Ok_0;
        if has_key(r.areas, k) {
            let i = choose|i: int| 0 <= i < r.areas.len() && #[trigger] r.areas[i].key == k;
            assert(outside(1, k)(r.areas[i]));
        }
        assert forall|i: int| 0 <= i < r.categories.len() implies #[trigger] r.categories[i].key
            / 10 != k by {
            assert(outside(10, k)(r.categories[i]));
        }
        assert forall|i: int| 0 <= i < r.ids.len() implies #[trigger] r.ids[i].key / 1000 != k by {
            assert(outside(1000, k)(r.ids[i]));
        }
    }
    if m.remove_category(k) is Ok {
        let r = m.remove_category(k)->Ok_0;
        if has_key(r.categories, k) {
            let i = choose|i: int| 0 <= i < r.categories.len() && #[trigger] r.categories[i].key == k;
            assert(outside(1, k)(r.categories[i]));
        }
        assert forall|i: int| 0 <= i < r.ids.len() implies #[trigger] r.ids[i].key / 100 != k by {
            assert(outside(100, k)(r.ids[i]));
        }
    }
}

/// A text without a line feed is one line.
proof fn lemma_split_no_break(l: Seq<char>)
    requires
        !l.contains('\n'),
    ensures
        split_lines(l) == seq![l],
    decreases l.len(),
{
    if l.len() == 0 {
        assert(l =~= Seq::<char>::empty());
    } else {
        let d = l.drop_last();
        assert(!d.contains('\n')) by {
            if d.contains('\n') {
                let k = choose|k: int| 0 <= k < d.len() && d[k] == '\n';
                assert(l[k] == '\n');
            }
        }
        lemma_split_no_break(d);
        assert(l.last() != '\n') by {
            assert(l[l.len() - 1] == l.last());
        }
        assert(d.push(l.last()) =~= l);
        assert(split_lines(l) =~= seq![l]);
    }
}

/// After a line feed, the lines of what follows are lines of their own.
proof fn lemma_split_append(t: Seq<char>, u: Seq<char>)
    requires
        t.len() == 0 || t.last() == '\n',
    ensures
        split_lines(t + u) == split_lines(t).drop_last() + split_lines(u),
    decreases u.len(),
{
    lemma_split_lines_len(t);
    if u.len() == 0 {
        assert(t + u =~= t);
        if t.len() == 0 {
            assert(t =~= Seq::<char>::empty());
        }
        assert(split_lines(t).last() =~= Seq::<char>::empty());
        assert(split_lines(t) =~= split_lines(t).drop_last() + split_lines(u));
    } else {
        let v = u.drop_last();
        lemma_split_append(t, v);
        lemma_split_lines_len(v);
        assert((t + u).drop_last() =~= t + v);
        assert((t + u).last() == u.last());
        let d = split_lines(t).drop_last();
        if u.last() == '\n' {
            assert(split_lines(t + u) =~= d + split_lines(u));
        } else {
            let sv = split_lines(v);
            assert((d + sv).last() == sv.last());
            assert((d + sv).update((d + sv).len() - 1, sv.last().push(u.last())) =~= d + sv.update(
                sv.len() - 1,
                sv.last().push(u.last()),
            ));
        }
    }
}

/// The lines of the text that `lines_text` writes.
proof fn lemma_split_lines_text(s: Seq<Entry>)
    requires
        forall|i: int| 0 <= i < s.len() ==> clean_line(dir_name(#[trigger] s[i])),
    ensures
        split_lines(lines_text(s)) == s.map_values(|e: Entry| dir_name(e)) + seq![Seq::<char>::empty()],
        lines_text(s).len() == 0 || lines_text(s).last() == '\n',
    decreases s.len(),
{
    if s.len() == 0 {
        assert(s.map_values(|e: Entry| dir_name(e)) =~= Seq::<Seq<char>>::empty());
        assert(split_lines(lines_text(s)) =~= seq![Seq::<char>::empty()]);
    } else {
        let p = s.drop_last();
        lemma_split_lines_text(p);
        let l = dir_name(s.last());
        assert(clean_line(dir_name(s[s.len() - 1])));
        lemma_split_no_break(l);
        let u = l + seq!['\n'];
        assert(u.drop_last() =~= l);
        assert(split_lines(u) =~= seq![l, Seq::<char>::empty()]);
        assert(lines_text(s) =~= lines_text(p) + u);
        lemma_split_append(lines_text(p), u);
        let mp = p.map_values(|e: Entry| dir_name(e));
        assert((mp + seq![Seq::<char>::empty()]).drop_last() =~= mp);
        assert(s.map_values(|e: Entry| dir_name(e)) =~= mp.push(l));
        assert(split_lines(lines_text(s)) =~= s.map_values(|e: Entry| dir_name(e)) + seq![
            Seq::<char>::empty(),
        ]);
    }
}

/// Trimming leaves a clean line as it is.
proof fn lemma_clean_line_kept(l: Seq<char>)
    requires
        clean_line(l),
    ensures
        trim_line(l) == l,
        trim_line(l).len() > 0,
{
    assert(skip_spaces(l) == l);
    assert(l[l.len() - 1] != '\r') by {
        if l[l.len() - 1] == '\r' {
            assert(l.contains('\r'));
        }
    }
}

/// In a sorted sequence each entry goes in just after those before it.
proof fn lemma_prefix_insert(s: Seq<Entry>, j: int)
    requires
        sorted(s),
        0 <= j < s.len(),
    ensures
        !has_key(s.take(j), s[j].key),
        insert_sorted(s.take(j), s[j]) == s.take(j + 1),
{
    let t = s.take(j);
    assert(sorted(t));
    if has_key(t, s[j].key) {
        let i = choose|i: int| 0 <= i < t.len() && #[trigger] t[i].key == s[j].key;
        assert(s[i].key < s[j].key);
    }
    lemma_rank(t, s[j].key);
    let r = rank(t, s[j].key) as int;
    if r < j {
        assert(t[r] == s[r]);
    }
    assert(t.insert(j, s[j]) =~= s.take(j + 1));
}

/// Reading the first `k` area lines gives the first `k` areas.
proof fn lemma_read_areas(m: IndexView, ls: Seq<Seq<char>>, k: int)
    requires
        m.wf(),
        0 <= k <= m.areas.len(),
        ls.len() >= m.areas.len(),
        forall|i: int|
            0 <= i < m.areas.len() ==> ls[i] == dir_name(m.areas[i]) && <Area as Keyed>::reads_back(
                #[trigger] m.areas[i],
            ),
    ensures
        parse_lines(ls.take(k)) == Ok::<IndexView, Error>(
            IndexView { areas: m.areas.take(k), categories: Seq::empty(), ids: Seq::empty() },
        ),
    decreases k,
{
    if k == 0 {
        assert(ls.take(0) =~= Seq::<Seq<char>>::empty());
        assert(m.areas.take(0) =~= Seq::<Entry>::empty());
    } else {
        lemma_read_areas(m, ls, k - 1);
        assert(ls.take(k).drop_last() =~= ls.take(k - 1));
        let a = m.areas[k - 1];
        assert(<Area as Keyed>::reads_back(a));
        lemma_clean_line_kept(dir_name(a));
        lemma_prefix_insert(m.areas, k - 1);
    }
}

/// After the areas, reading `k` category lines gives the first `k` categories.
proof fn lemma_read_categories(m: IndexView, ls: Seq<Seq<char>>, k: int)
    requires
        m.wf(),
        0 <= k <= m.categories.len(),
        ls.len() >= m.areas.len() + m.categories.len(),
        parse_lines(ls.take(m.areas.len() as int)) == Ok::<IndexView, Error>(
            IndexView { areas: m.areas, categories: Seq::empty(), ids: Seq::empty() },
        ),
        forall|i: int|
            0 <= i < m.categories.len() ==> ls[m.areas.len() + i] == dir_name(m.categories[i])
                && <Category as Keyed>::reads_back(#[trigger] m.categories[i]),
    ensures
        parse_lines(ls.take(m.areas.len() + k)) == Ok::<IndexView, Error>(
            IndexView { areas: m.areas, categories: m.categories.take(k), ids: Seq::empty() },
        ),
    decreases k,
{
    let na = m.areas.len() as int;
    if k == 0 {
        assert(m.categories.take(0) =~= Seq::<Entry>::empty());
    } else {
        lemma_read_categories(m, ls, k - 1);
        assert(ls.take(na + k).drop_last() =~= ls.take(na + k - 1));
        let c = m.categories[k - 1];
        assert(<Category as Keyed>::reads_back(c));
        assert(ls[na + k - 1] == dir_name(c));
        lemma_clean_line_kept(dir_name(c));
        lemma_prefix_insert(m.categories, k - 1);
        assert(has_key(m.areas, m.categories[k - 1].key / 10));
    }
}

/// After the areas and categories, reading `k` id lines gives the first `k` ids.
proof fn lemma_read_ids(m: IndexView, ls: Seq<Seq<char>>, k: int)
    requires
        m.wf(),
        0 <= k <= m.ids.len(),
        ls.len() >= m.areas.len() + m.categories.len() + m.ids.len(),
        parse_lines(ls.take((m.areas.len() + m.categories.len()) as int)) == Ok::<IndexView, Error>(
            IndexView { areas: m.areas, categories: m.categories, ids: Seq::empty() },
        ),
        forall|i: int|
            0 <= i < m.ids.len() ==> ls[m.areas.len() + m.categories.len() + i] == dir_name(
                m.ids[i],
            ) && <Id as Keyed>::reads_back(#[trigger] m.ids[i]),
    ensures
        parse_lines(ls.take(m.areas.len() + m.categories.len() + k)) == Ok::<IndexView, Error>(
            IndexView { areas: m.areas, categories: m.categories, ids: m.ids.take(k) },
        ),
    decreases k,
{
    let n = (m.areas.len() + m.categories.len()) as int;
    if k == 0 {
        assert(m.ids.take(0) =~= Seq::<Entry>::empty());
    } else {
        lemma_read_ids(m, ls, k - 1);
        assert(ls.take(n + k).drop_last() =~= ls.take(n + k - 1));
        let d = m.ids[k - 1];
        assert(<Id as Keyed>::reads_back(d));
        assert(ls[n + k - 1] == dir_name(d));
        lemma_clean_line_kept(dir_name(d));
        lemma_prefix_insert(m.ids, k - 1);
        assert(has_key(m.categories, m.ids[k - 1].key / 100));
    }
}

/// The text written for an index parses back to that index.
#[verifier::rlimit(40)]
pub proof fn lemma_text_round_trip(m: IndexView)
    requires
        m.wf(),
        forall|i: int| 0 <= i < m.areas.len() ==> <Area as Keyed>::reads_back(#[trigger] m.areas[i]),
        forall|i: int|
            0 <= i < m.categories.len() ==> <Category as Keyed>::reads_back(#[trigger] m.categories[i]),
        forall|i: int| 0 <= i < m.ids.len() ==> <Id as Keyed>::reads_back(#[trigger] m.ids[i]),
    ensures
        parse_index(index_text(m)) == Ok::<IndexView, Error>(m),
{
    let a = lines_text(m.areas);
    let c = lines_text(m.categories);
    let d = lines_text(m.ids);
    lemma_split_lines_text(m.areas);
    lemma_split_lines_text(m.categories);
    lemma_split_lines_text(m.ids);
    lemma_split_append(a, c);
    assert((a + c).len() == 0 || (a + c).last() == '\n') by {
        if c.len() > 0 {
            assert((a + c).last() == c.last());
        } else {
            assert(a + c =~= a);
        }
    }
    lemma_split_append(a + c, d);
    let f = |e: Entry| dir_name(e);
    let ma = m.areas.map_values(f);
    let mc = m.categories.map_values(f);
    let md = m.ids.map_values(f);
    let e = seq![Seq::<char>::empty()];
    let ls = split_lines(index_text(m));
    assert(index_text(m) =~= (a + c) + d);
    assert((ma + e).drop_last() =~= ma);
    assert((ma + mc + e).drop_last() =~= ma + mc);
    assert(ls =~= ma + mc + md + e);
    let na = m.areas.len() as int;
    let nc = m.categories.len() as int;
    let nd = m.ids.len() as int;
    assert forall|i: int| 0 <= i < na implies ls[i] == dir_name(m.areas[i]) && <Area as Keyed>::reads_back(
        #[trigger] m.areas[i],
    ) by {
        assert(ls[i] == ma[i]);
    }
    lemma_read_areas(m, ls, na);
    assert(m.areas.take(na) =~= m.areas);
    assert forall|i: int|
        0 <= i < nc implies ls[na + i] == dir_name(m.categories[i]) && <Category as Keyed>::reads_back(
        #[trigger] m.categories[i],
    ) by {
        assert(ls[na + i] == mc[i]);
    }
    lemma_read_categories(m, ls, nc);
    assert(m.categories.take(nc) =~= m.categories);
    assert forall|i: int|
        0 <= i < nd implies ls[na + nc + i] == dir_name(m.ids[i]) && <Id as Keyed>::reads_back(
        #[trigger] m.ids[i],
    ) by {
        assert(ls[na + nc + i] == md[i]);
    }
    lemma_read_ids(m, ls, nd);
    assert(m.ids.take(nd) =~= m.ids);
    assert(ls.take(na + nc + nd) =~= ls.drop_last());
    assert(ls.last() =~= Seq::<char>::empty());
    assert(trim_line(ls.last()) =~= Seq::<char>::empty());
}

/// Writes `head/tail`.
fn slash_join(head: &String, tail: &String) -> (r: String)
    ensures
        r@ == head@ + seq!['/'] + tail@,
{
    let mut r = head.clone();
    r.append("/");
    r.append(tail.as_str());
    proof {
        reveal_strlit("/");
    }
    r
}

/// `00.00 Index.txt`: the areas, categories and ids of a system, each kept sorted
/// by code, with no code twice and no category or id without its parent.
#[derive(Debug)]
pub struct Index {
    areas: Vec<Area>,
    categories: Vec<Category>,
    ids: Vec<Id>,
}

impl View for Index {
    type V = IndexView;

    closed spec fn view(&self) -> IndexView {
        IndexView {
            areas: entries(self.areas@),
            categories: entries(self.categories@),
            ids: entries(self.ids@),
        }
    }
}

impl Index {
    /// An index with nothing in it.
    pub fn empty() -> (r: Index)
        ensures
            r@ == IndexView::empty(),
            r@.wf(),
    {
        let r = Index { areas: Vec::new(), categories: Vec::new(), ids: Vec::new() };
        proof {
            assert(r@.areas =~= Seq::<Entry>::empty());
            assert(r@.categories =~= Seq::<Entry>::empty());
            assert(r@.ids =~= Seq::<Entry>::empty());
        }
        r
    }

    /// The areas, in key order.
    pub fn get_areas(&self) -> (r: &Vec<Area>)
        ensures
            entries(r@) == self@.areas,
    {
        &self.areas
    }

    /// The categories, in key order.
    pub fn get_categories(&self) -> (r: &Vec<Category>)
        ensures
            entries(r@) == self@.categories,
    {
        &self.categories
    }

    /// The ids, in key order.
    pub fn get_ids(&self) -> (r: &Vec<Id>)
        ensures
            entries(r@) == self@.ids,
    {
        &self.ids
    }

    /// Adds `area`, which must not be present yet; returns the areas.
    pub fn add_area(&mut self, area: &Area) -> (r: Result<&Vec<Area>, Error>)
        requires
            old(self)@.wf(),
        ensures
            final(self)@.wf(),
            match old(self)@.add_area(area@) {
                Ok(m) => final(self)@ == m && r is Ok && entries(r->Ok_0@) == m.areas,
                Err(e) => final(self)@ == old(self)@ && r == Err::<&Vec<Area>, Error>(e),
            },
    {
        if find_key(&self.areas, area.key_of()).is_some() {
            return Err(Error::Duplicate);
        }
        proof {
            lemma_insert_sorted(self@.areas, area@);
        }
        insert_by_key(&mut self.areas, area);
        Ok(&self.areas)
    }

    /// Adds `category`, which must not be present yet and whose area must be;
    /// returns the categories.
    pub fn add_category(&mut self, category: &Category) -> (r: Result<&Vec<Category>, Error>)
        requires
            old(self)@.wf(),
        ensures
            final(self)@.wf(),
            match old(self)@.add_category(category@) {
                Ok(m) => final(self)@ == m && r is Ok && entries(r->Ok_0@) == m.categories,
                Err(e) => final(self)@ == old(self)@ && r == Err::<&Vec<Category>, Error>(e),
            },
    {
        if find_key(&self.categories, category.key_of()).is_some() {
            return Err(Error::Duplicate);
        }
        if find_key(&self.areas, category.area_key()).is_none() {
            return Err(Error::Orphan);
        }
        let ghost before = self@;
        proof {
            lemma_insert_sorted(self@.categories, category@);
        }
        insert_by_key(&mut self.categories, category);
        proof {
            let cs = self@.categories;
            assert forall|i: int| 0 <= i < cs.len() implies has_key(
                self@.areas,
                #[trigger] cs[i].key / 10,
            ) by {
                assert(cs == insert_sorted(before.categories, category@));
                assert(cs.contains(cs[i]));
                assert(before.categories.contains(cs[i]) || cs[i] == category@);
                if cs[i] != category@ {
                    let j = choose|j: int| 0 <= j < before.categories.len() && before.categories[j] == cs[i];
                    assert(has_key(before.areas, before.categories[j].key / 10));
                }
            }
            assert forall|i: int| 0 <= i < self@.ids.len() implies has_key(
                cs,
                #[trigger] self@.ids[i].key / 100,
            ) by {
                assert(has_key(before.categories, self@.ids[i].key / 100));
            }
        }
        Ok(&self.categories)
    }

    /// Adds `id`, which must not be present yet and whose category must be;
    /// returns the ids.
    pub fn add_id(&mut self, id: &Id) -> (r: Result<&Vec<Id>, Error>)
        requires
            old(self)@.wf(),
        ensures
            final(self)@.wf(),
            match old(self)@.add_id(id@) {
                Ok(m) => final(self)@ == m && r is Ok && entries(r->Ok_0@) == m.ids,
                Err(e) => final(self)@ == old(self)@ && r == Err::<&Vec<Id>, Error>(e),
            },
    {
        if find_key(&self.ids, id.key_of()).is_some() {
            return Err(Error::Duplicate);
        }
        if find_key(&self.categories, id.category_key()).is_none() {
            return Err(Error::Orphan);
        }
        let ghost before = self@;
        proof {
            lemma_insert_sorted(self@.ids, id@);
        }
        insert_by_key(&mut self.ids, id);
        proof {
            let is = self@.ids;
            assert forall|i: int| 0 <= i < is.len() implies has_key(
                self@.categories,
                #[trigger] is[i].key / 100,
            ) by {
                assert(is == insert_sorted(before.ids, id@));
                assert(is.contains(is[i]));
                assert(before.ids.contains(is[i]) || is[i] == id@);
                if is[i] != id@ {
                    let j = choose|j: int| 0 <= j < before.ids.len() && before.ids[j] == is[i];
                    assert(has_key(before.categories, before.ids[j].key / 100));
                }
            }
        }
        Ok(&self.ids)
    }

    /// Removes the area with the code of `area`, with its categories and their
    /// ids; returns the areas.
    pub fn remove_area(&mut self, area: &Area) -> (r: Result<&Vec<Area>, Error>)
        requires
            old(self)@.wf(),
        ensures
            final(self)@.wf(),
            match old(self)@.remove_area(area@.key) {
                Ok(m) => final(self)@ == m && r is Ok && entries(r->Ok_0@) == m.areas,
                Err(e) => final(self)@ == old(self)@ && r == Err::<&Vec<Area>, Error>(e),
            },
    {
        let k = area.key_of();
        if find_key(&self.areas, k).is_none() {
            return Err(Error::NotFound);
        }
        proof {
            lemma_remove_area_wf(self@, k as nat);
        }
        let areas = retain_outside(&self.areas, 1, k);
        let categories = retain_outside(&self.categories, 10, k);
        let ids = retain_outside(&self.ids, 1000, k);
        self.areas = areas;
        self.categories = categories;
        self.ids = ids;
        Ok(&self.areas)
    }

    /// Removes the category with the code of `category`, with its ids; returns
    /// the categories.
    pub fn remove_category(&mut self, category: &Category) -> (r: Result<&Vec<Category>, Error>)
        requires
            old(self)@.wf(),
        ensures
            final(self)@.wf(),
            match old(self)@.remove_category(category@.key) {
                Ok(m) => final(self)@ == m && r is Ok && entries(r->Ok_0@) == m.categories,
                Err(e) => final(self)@ == old(self)@ && r == Err::<&Vec<Category>, Error>(e),
            },
    {
        let k = category.key_of();
        if find_key(&self.categories, k).is_none() {
            return Err(Error::NotFound);
        }
        proof {
            lemma_remove_category_wf(self@, k as nat);
        }
        let categories = retain_outside(&self.categories, 1, k);
        let ids = retain_outside(&self.ids, 100, k);
        self.categories = categories;
        self.ids = ids;
        Ok(&self.categories)
    }

    /// Removes the id with the code of `id`; returns the ids.
    pub fn remove_id(&mut self, id: &Id) -> (r: Result<&Vec<Id>, Error>)
        requires
            old(self)@.wf(),
        ensures
            final(self)@.wf(),
            match old(self)@.remove_id(id@.key) {
                Ok(m) => final(self)@ == m && r is Ok && entries(r->Ok_0@) == m.ids,
                Err(e) => final(self)@ == old(self)@ && r == Err::<&Vec<Id>, Error>(e),
            },
    {
        let k = id.key_of();
        if find_key(&self.ids, k).is_none() {
            return Err(Error::NotFound);
        }
        proof {
            lemma_remove_id_wf(self@, k as nat);
        }
        let ids = retain_outside(&self.ids, 1, k);
        self.ids = ids;
        Ok(&self.ids)
    }

    /// Builds an index from three lists in any order (as a walk of a directory
    /// tree finds them), sorting each by key.
    pub fn with_vecs(areas: &Vec<Area>, categories: &Vec<Category>, ids: &Vec<Id>) -> (r: Result<
        Index,
        Error,
    >)
        ensures
            match from_lists(entries(areas@), entries(categories@), entries(ids@)) {
                Ok(m) => r is Ok && r->Ok_0@ == m && m.wf(),
                Err(e) => r == Err::<Index, Error>(e),
            },
    {
        let a = match sort_unique(areas) {
            Some(a) => a,
            None => return Err(Error::Duplicate),
        };
        let c = match sort_unique(categories) {
            Some(c) => c,
            None => return Err(Error::Duplicate),
        };
        let i = match sort_unique(ids) {
            Some(i) => i,
            None => return Err(Error::Duplicate),
        };
        proof {
            if parented(entries(categories@), entries(areas@), 10) {
                lemma_parented_same_keys(
                    entries(categories@),
                    entries(categories@),
                    entries(areas@),
                    entries(a@),
                    10,
                );
            }
            if parented(entries(ids@), entries(categories@), 100) {
                lemma_parented_same_keys(
                    entries(ids@),
                    entries(ids@),
                    entries(categories@),
                    entries(c@),
                    100,
                );
            }
        }
        if !all_parented(ids, &c, 100) || !all_parented(categories, &a, 10) {
            return Err(Error::Orphan);
        }
        proof {
            lemma_parented_same_keys(
                entries(categories@),
                entries(categories@),
                entries(a@),
                entries(areas@),
                10,
            );
            lemma_parented_same_keys(
                entries(ids@),
                entries(ids@),
                entries(c@),
                entries(categories@),
                100,
            );
            lemma_parented_same_keys(entries(c@), entries(categories@), entries(areas@), entries(a@), 10);
            lemma_parented_same_keys(entries(i@), entries(ids@), entries(categories@), entries(c@), 100);
        }
        Ok(Index { areas: a, categories: c, ids: i })
    }

    /// Takes one line of an index file into the index.
    fn take_line(&mut self, line: &str) -> (r: Result<(), Error>)
        requires
            old(self)@.wf(),
        ensures
            final(self)@.wf(),
            match take_line(old(self)@, line@) {
                Ok(m) => r is Ok && final(self)@ == m,
                Err(e) => r == Err::<(), Error>(e),
            },
    {
        let n = line.unicode_len();
        let mut j: usize = 0;
        while j < n && line.get_char(j) == ' '
            invariant
                j <= n,
                n == line@.len(),
                forall|k: int| 0 <= k < j ==> line@[k] == ' ',
            decreases n - j,
        {
            j += 1;
        }
        proof {
            lemma_skip_spaces(line@, j as int);
        }
        let mut end = n;
        if j < n && line.get_char(n - 1) == '\r' {
            end = n - 1;
        }
        let l = line.substring_char(j, end);
        proof {
            assert(l@ =~= trim_line(line@));
        }
        if end == j {
            return Ok(());
        }
        match classify_line(l) {
            Some(Line::Id(i)) => match self.add_id(&i) {
                Ok(_) => Ok(()),
                Err(e) => Err(e),
            },
            Some(Line::Category(c)) => match self.add_category(&c) {
                Ok(_) => Ok(()),
                Err(e) => Err(e),
            },
            Some(Line::Area(a)) => match self.add_area(&a) {
                Ok(_) => Ok(()),
                Err(e) => Err(e),
            },
            None => Err(Error::Unrecognized),
        }
    }

    /// Parses the text of an index file: one entity per line, blank lines and
    /// leading spaces ignored, each parent before its children, no code twice.
    pub fn new(text: &str) -> (r: Result<Index, Error>)
        ensures
            match parse_index(text@) {
                Ok(m) => r is Ok && r->Ok_0@ == m && m.wf(),
                Err(e) => r == Err::<Index, Error>(e),
            },
    {
        let ghost t = text@;
        let n = text.unicode_len();
        let mut index = Index::empty();
        let mut failed: Option<Error> = None;
        let mut start: usize = 0;
        let mut i: usize = 0;
        proof {
            assert(t.subrange(0, 0) =~= Seq::<char>::empty());
            assert(split_lines(t.subrange(0, 0)).drop_last() =~= Seq::<Seq<char>>::empty());
        }
        while i < n
            invariant
                start <= i <= n,
                n == t.len(),
                t == text@,
                index@.wf(),
                split_lines(t.subrange(0, i as int)).last() == t.subrange(start as int, i as int),
                match parse_lines(split_lines(t.subrange(0, i as int)).drop_last()) {
                    Ok(m) => failed is None && index@ == m,
                    Err(e) => failed == Some(e),
                },
            decreases n - i,
        {
            let ghost pre = t.subrange(0, i as int);
            let ghost next = t.subrange(0, i as int + 1);
            proof {
                lemma_split_lines_len(pre);
                assert(next.drop_last() =~= pre);
                assert(next.last() == t[i as int]);
            }
            if text.get_char(i) == '\n' {
                proof {
                    let ls = split_lines(next);
                    assert(ls.drop_last() =~= split_lines(pre));
                    assert(split_lines(pre) =~= split_lines(pre).drop_last().push(
                        split_lines(pre).last(),
                    ));
                }
                if failed.is_none() {
                    let line = text.substring_char(start, i);
                    match index.take_line(line) {
                        Ok(()) => {},
                        Err(e) => {
                            failed = Some(e);
                        },
                    }
                }
                start = i + 1;
                proof {
                    assert(t.subrange(start as int, i as int + 1) =~= Seq::<char>::empty());
                }
            } else {
                proof {
                    let ls = split_lines(next);
                    assert(ls.drop_last() =~= split_lines(pre).drop_last());
                    assert(t.subrange(start as int, i as int + 1) =~= t.subrange(
                        start as int,
                        i as int,
                    ).push(t[i as int]));
                }
            }
            i += 1;
        }
        proof {
            lemma_split_lines_len(t);
            assert(t.subrange(0, n as int) =~= t);
            assert(split_lines(t) =~= split_lines(t).drop_last().push(split_lines(t).last()));
        }
        match failed {
            Some(e) => Err(e),
            None => {
                let line = text.substring_char(start, n);
                match index.take_line(line) {
                    Ok(()) => Ok(index),
                    Err(e) => Err(e),
                }
            },
        }
    }

    /// The area that `category` belongs to, where the index holds it.
    pub fn get_area_from_category(&self, category: &Category) -> (r: Result<&Area, Error>)
        ensures
            r is Ok <==> has_key(self@.areas, category@.key / 10),
            r is Err ==> r == Err::<&Area, Error>(Error::Orphan),
            r is Ok ==> self@.areas.contains(r->Ok_0@) && r->Ok_0@.key == category@.key / 10,
    {
        match find_key(&self.areas, category.area_key()) {
            Some(i) => {
                assert(self@.areas[i as int] == self.areas@[i as int]@);
                Ok(&self.areas[i])
            },
            None => Err(Error::Orphan),
        }
    }

    /// The area that `id` belongs to, where the index holds it.
    pub fn get_area_from_id(&self, id: &Id) -> (r: Result<&Area, Error>)
        ensures
            r is Ok <==> has_key(self@.areas, id@.key / 1000),
            r is Err ==> r == Err::<&Area, Error>(Error::Orphan),
            r is Ok ==> self@.areas.contains(r->Ok_0@) && r->Ok_0@.key == id@.key / 1000,
    {
        match find_key(&self.areas, id.key_of() / 1000) {
            Some(i) => {
                assert(self@.areas[i as int] == self.areas@[i as int]@);
                Ok(&self.areas[i])
            },
            None => Err(Error::Orphan),
        }
    }

    /// The category of `id`, where the index holds `id`.
    pub fn get_category_from_id(&self, id: &Id) -> (r: Result<&Category, Error>)
        requires
            self@.wf(),
        ensures
            r is Ok <==> has_key(self@.ids, id@.key),
            r is Err ==> r == Err::<&Category, Error>(Error::NotFound),
            r is Ok ==> self@.categories.contains(r->Ok_0@) && r->Ok_0@.key == id@.key / 100,
    {
        let found = find_key(&self.ids, id.key_of());
        if found.is_none() {
            return Err(Error::NotFound);
        }
        proof {
            let j = found->Some_0 as int;
            assert(has_key(self@.categories, self@.ids[j].key / 100));
        }
        match find_key(&self.categories, id.category_key()) {
            Some(i) => {
                assert(self@.categories[i as int] == self.categories@[i as int]@);
                Ok(&self.categories[i])
            },
            None => Err(Error::NotFound),
        }
    }

    /// The path of the directory of `area` below the root: `/a0-a9 <title>`.
    pub fn get_path_from_area(&self, area: &Area) -> (r: Result<String, Error>)
        ensures
            r is Ok,
            r->Ok_0@ == seq!['/'] + dir_name(area@),
    {
        Ok(slash_join(&String::new(), &area.dir_name()))
    }

    /// The path of the directory of `category` below the root:
    /// `/a0-a9 <area title>/ac <title>`, where the index holds its area.
    pub fn get_path_from_category(&self, category: &Category) -> (r: Result<String, Error>)
        ensures
            r is Ok <==> has_key(self@.areas, category@.key / 10),
            r is Err ==> r == Err::<String, Error>(Error::Orphan),
            r is Ok ==> exists|a: Entry|
                #![trigger self@.areas.contains(a)]
                self@.areas.contains(a) && a.key == category@.key / 10 && r->Ok_0@ == seq!['/']
                    + dir_name(a) + seq!['/'] + dir_name(category@),
    {
        let area = match self.get_area_from_category(category) {
            Ok(a) => a,
            Err(e) => return Err(e),
        };
        let up = slash_join(&String::new(), &area.dir_name());
        let r = slash_join(&up, &category.dir_name());
        proof {
            assert(r@ =~= seq!['/'] + dir_name(area@) + seq!['/'] + dir_name(category@));
        }
        Ok(r)
    }

    /// The path of the directory of `id` below the root:
    /// `/a0-a9 <area title>/ac <category title>/ac.id <title>`, where the index
    /// holds its category.
    pub fn get_path_from_id(&self, id: &Id) -> (r: Result<String, Error>)
        requires
            self@.wf(),
        ensures
            r is Ok <==> has_key(self@.categories, id@.key / 100),
            r is Err ==> r == Err::<String, Error>(Error::Orphan),
            r is Ok ==> exists|a: Entry, c: Entry|
                #![trigger self@.areas.contains(a), self@.categories.contains(c)]
                self@.areas.contains(a) && self@.categories.contains(c) && c.key == id@.key / 100
                    && a.key == c.key / 10 && r->Ok_0@ == seq!['/'] + dir_name(a) + seq!['/']
                    + dir_name(c) + seq!['/'] + dir_name(id@),
    {
        let i = match find_key(&self.categories, id.category_key()) {
            Some(i) => i,
            None => return Err(Error::Orphan),
        };
        let category = &self.categories[i];
        proof {
            assert(self@.categories[i as int] == category@);
            assert(self@.categories.contains(category@));
            assert(has_key(self@.areas, self@.categories[i as int].key / 10));
        }
        let up = match self.get_path_from_category(category) {
            Ok(p) => p,
            Err(e) => return Err(e),
        };
        let ghost a = choose|a: Entry|
            #![trigger self@.areas.contains(a)]
            self@.areas.contains(a) && a.key == category@.key / 10 && up@ == seq!['/'] + dir_name(a)
                + seq!['/'] + dir_name(category@);
        let r = slash_join(&up, &id.dir_name());
        proof {
            assert(r@ =~= seq!['/'] + dir_name(a) + seq!['/'] + dir_name(category@) + seq!['/']
                + dir_name(id@));
            assert(self@.areas.contains(a) && self@.categories.contains(category@));
        }
        Ok(r)
    }

    /// Writes the index as the text of an index file, which parses back to it.
    pub fn to_text(&self) -> (r: String)
        requires
            self@.wf(),
        ensures
            r@ == index_text(self@),
            parse_index(r@) == Ok::<IndexView, Error>(self@),
    {
        let mut r = String::new();
        write_lines(&mut r, &self.areas);
        write_lines(&mut r, &self.categories);
        write_lines(&mut r, &self.ids);
        proof {
            assert(r@ =~= index_text(self@));
            lemma_text_round_trip(self@);
        }
        r
    }
}

impl PartialEq for Index {
    fn eq(&self, other: &Index) -> (r: bool) {
        keys_match(&self.areas, &other.areas) && keys_match(&self.categories, &other.categories)
            && keys_match(&self.ids, &other.ids)
    }
}

impl vstd::std_specs::cmp::PartialEqSpecImpl for Index {
    open spec fn obeys_eq_spec() -> bool {
        true
    }

    /// Two indexes are equal when they hold the same codes in the same order.
    open spec fn eq_spec(&self, other: &Index) -> bool {
        &&& same_keys(self@.areas, other@.areas)
        &&& same_keys(self@.categories, other@.categories)
        &&& same_keys(self@.ids, other@.ids)
    }
}

} // verus!
