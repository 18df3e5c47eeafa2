//! A root directory with its index. Opening reconciles the index file with a
//! walk of the directories; each change is planned here, made on disk by the
//! caller, and recorded here according to what became of it.

use vstd::prelude::*;

use crate::entity::{dir_name, parse_area, parse_category, parse_id, Area, Category, Entry, Id, Keyed};
use crate::error::Error;
use crate::index::{from_lists, parse_index, Index, IndexView};
use crate::keyed::{entries, find_key, has_key, same_keys};

verus! {

/// The entries that the names which parse give, in order; other names are skipped.
pub open spec fn recognized(
    names: Seq<Seq<char>>,
    parse: spec_fn(Seq<char>) -> Result<Entry, Error>,
) -> Seq<Entry>
    decreases names.len(),
{
    if names.len() == 0 {
        Seq::empty()
    } else {
        let r = recognized(names.drop_last(), parse);
        match parse(names.last()) {
            Ok(e) => r.push(e),
            Err(_) => r,
        }
    }
}

/// The views of a list of names.
pub open spec fn names_view(v: Seq<String>) -> Seq<Seq<char>> {
    v.map_values(|s: String| s@)
}

/// The directory names that a walk of a root finds, level by level: the names
/// directly below the root, those one level further down, and those two levels
/// further down.
pub struct Tree {
    pub top: Vec<String>,
    pub middle: Vec<String>,
    pub bottom: Vec<String>,
}

/// The index that a walk describes: names below the root that are areas, names
/// one level down that are categories, names two levels down that are ids.
pub open spec fn tree_index(top: Seq<Seq<char>>, middle: Seq<Seq<char>>, bottom: Seq<Seq<char>>) -> Result<
    IndexView,
    Error,
> {
    from_lists(
        recognized(top, |s: Seq<char>| parse_area(s)),
        recognized(middle, |s: Seq<char>| parse_category(s)),
        recognized(bottom, |s: Seq<char>| parse_id(s)),
    )
}

/// Two indexes agree when they hold the same codes in the same order.
pub open spec fn agree(a: IndexView, b: IndexView) -> bool {
    &&& same_keys(a.areas, b.areas)
    &&& same_keys(a.categories, b.categories)
    &&& same_keys(a.ids, b.ids)
}

/// The index of a system, from what its index file says (if it has one) and
/// what its directory tree says (if it could be walked).
pub open spec fn reconciled(
    file: Option<Result<IndexView, Error>>,
    tree: Option<Result<IndexView, Error>>,
) -> Result<IndexView, Error> {
    match (file, tree) {
        (Some(Err(e)), _) => Err(e),
        (_, Some(Err(e))) => Err(e),
        (Some(Ok(f)), Some(Ok(t))) => if agree(f, t) {
            Ok(f)
        } else {
            Err(Error::Desync)
        },
        (Some(Ok(f)), None) => Ok(f),
        (None, Some(Ok(t))) => Ok(t),
        (None, None) => Ok(IndexView::empty()),
    }
}

/// How the index file and the directory tree of a root compare.
#[derive(Debug)]
pub enum Reconciled {
    /// Both exist and hold the same codes; the file's index is kept.
    Agree(Index),
    /// Only the index file exists.
    FileOnly(Index),
    /// Only the directory tree exists.
    FsOnly(Index),
    /// Neither exists.
    Neither,
    /// Both exist and disagree.
    Conflict,
}

/// Compares the index of the file with that of the tree.
pub fn reconcile(file: Option<Index>, tree: Option<Index>) -> (r: Reconciled)
    ensures
        match (file, tree) {
            (Some(f), Some(t)) => if agree(f@, t@) {
                r matches Reconciled::Agree(i) && i@ == f@
            } else {
                r is Conflict
            },
            (Some(f), None) => r matches Reconciled::FileOnly(i) && i@ == f@,
            (None, Some(t)) => r matches Reconciled::FsOnly(i) && i@ == t@,
            (None, None) => r is Neither,
        },
{
    match (file, tree) {
        (Some(f), Some(t)) => if f == t {
            Reconciled::Agree(f)
        } else {
            Reconciled::Conflict
        },
        (Some(f), None) => Reconciled::FileOnly(f),
        (None, Some(t)) => Reconciled::FsOnly(t),
        (None, None) => Reconciled::Neither,
    }
}

/// The areas among `names`.
fn areas_named(names: &Vec<String>) -> (r: Vec<Area>)
    ensures
        entries(r@) == recognized(names_view(names@), |s: Seq<char>| parse_area(s)),
{
    let ghost ns = names_view(names@);
    let ghost p = |s: Seq<char>| parse_area(s);
    let mut r: Vec<Area> = Vec::new();
    let mut i: usize = 0;
    proof {
        assert(ns.subrange(0, 0) =~= Seq::<Seq<char>>::empty());
        assert(entries(r@) =~= Seq::<Entry>::empty());
    }
    while i < names.len()
        invariant
            i <= names@.len(),
            ns == names_view(names@),
            p == (|s: Seq<char>| parse_area(s)),
            entries(r@) == recognized(ns.subrange(0, i as int), p),
        decreases names@.len() - i,
    {
        proof {
            assert(ns.subrange(0, i as int + 1).drop_last() =~= ns.subrange(0, i as int));
            assert(ns.subrange(0, i as int + 1).last() == names@[i as int]@);
        }
        match Area::new(names[i].as_str()) {
            Ok(a) => {
                r.push(a);
                proof {
                    assert(entries(r@) =~= recognized(ns.subrange(0, i as int), p).push(r@.last()@));
                }
            },
            Err(_) => {},
        }
        i += 1;
    }
    proof {
        assert(ns.subrange(0, ns.len() as int) =~= ns);
    }
    r
}

/// The categories among `names`.
fn categories_named(names: &Vec<String>) -> (r: Vec<Category>)
    ensures
        entries(r@) == recognized(names_view(names@), |s: Seq<char>| parse_category(s)),
{
    let ghost ns = names_view(names@);
    let ghost p = |s: Seq<char>| parse_category(s);
    let mut r: Vec<Category> = Vec::new();
    let mut i: usize = 0;
    proof {
        assert(ns.subrange(0, 0) =~= Seq::<Seq<char>>::empty());
        assert(entries(r@) =~= Seq::<Entry>::empty());
    }
    while i < names.len()
        invariant
            i <= names@.len(),
            ns == names_view(names@),
            p == (|s: Seq<char>| parse_category(s)),
            entries(r@) == recognized(ns.subrange(0, i as int), p),
        decreases names@.len() - i,
    {
        proof {
            assert(ns.subrange(0, i as int + 1).drop_last() =~= ns.subrange(0, i as int));
            assert(ns.subrange(0, i as int + 1).last() == names@[i as int]@);
        }
        match Category::new(names[i].as_str()) {
            Ok(c) => {
                r.push(c);
                proof {
                    assert(entries(r@) =~= recognized(ns.subrange(0, i as int), p).push(r@.last()@));
                }
            },
            Err(_) => {},
        }
        i += 1;
    }
    proof {
        assert(ns.subrange(0, ns.len() as int) =~= ns);
    }
    r
}

/// The ids among `names`.
fn ids_named(names: &Vec<String>) -> (r: Vec<Id>)
    ensures
        entries(r@) == recognized(names_view(names@), |s: Seq<char>| parse_id(s)),
{
    let ghost ns = names_view(names@);
    let ghost p = |s: Seq<char>| parse_id(s);
    let mut r: Vec<Id> = Vec::new();
    let mut i: usize = 0;
    proof {
        assert(ns.subrange(0, 0) =~= Seq::<Seq<char>>::empty());
        assert(entries(r@) =~= Seq::<Entry>::empty());
    }
    while i < names.len()
        invariant
            i <= names@.len(),
            ns == names_view(names@),
            p == (|s: Seq<char>| parse_id(s)),
            entries(r@) == recognized(ns.subrange(0, i as int), p),
        decreases names@.len() - i,
    {
        proof {
            assert(ns.subrange(0, i as int + 1).drop_last() =~= ns.subrange(0, i as int));
            assert(ns.subrange(0, i as int + 1).last() == names@[i as int]@);
        }
        match Id::new(names[i].as_str()) {
            Ok(d) => {
                r.push(d);
                proof {
                    assert(entries(r@) =~= recognized(ns.subrange(0, i as int), p).push(r@.last()@));
                }
            },
            Err(_) => {},
        }
        i += 1;
    }
    proof {
        assert(ns.subrange(0, ns.len() as int) =~= ns);
    }
    r
}

impl Tree {
    /// The index that the walk describes; names that are not entities are skipped.
    pub fn index(&self) -> (r: Result<Index, Error>)
        ensures
            match tree_index(
                names_view(self.top@),
                names_view(self.middle@),
                names_view(self.bottom@),
            ) {
                Ok(m) => r is Ok && r->Ok_0@ == m && m.wf(),
                Err(e) => r == Err::<Index, Error>(e),
            },
    {
        let areas = areas_named(&self.top);
        let categories = categories_named(&self.middle);
        let ids = ids_named(&self.bottom);
        Index::with_vecs(&areas, &categories, &ids)
    }
}

/// What became of a change on the file system: a directory made or moved to
/// the trash.
#[derive(Debug, Clone, Copy, PartialEq, Eq, Structural)]
pub enum Outcome {
    /// The change was made.
    Done,
    /// The directory to make was already there.
    AlreadyExists,
    /// The file system refused the change.
    Failed,
}

/// What a system is: its root and its index.
pub struct SystemView {
    pub root: Seq<char>,
    pub index: IndexView,
}

/// A root directory and the index of what lies below it.
#[derive(Debug)]
pub struct System {
    root: String,
    index: Index,
}

impl View for System {
    type V = SystemView;

    closed spec fn view(&self) -> SystemView {
        SystemView { root: self.root@, index: self.index@ }
    }
}

/// `root/<path>` for a path below the root that starts with `/`.
fn under(root: &String, path: &String) -> (r: String)
    ensures
        r@ == root@ + path@,
{
    let mut r = root.clone();
    r.append(path.as_str());
    r
}

impl System {
    /// Opens the system at `root`, given the text of its index file (`None` where
    /// there is none) and the walk of its directories (`None` where there is
    /// none). Where both exist they must agree; where neither does, the index
    /// starts empty.
    pub fn new(root: &str, index_text: Option<&str>, tree: Option<&Tree>) -> (r: Result<
        System,
        Error,
    >)
        ensures
            match reconciled(
                match index_text {
                    Some(t) => Some(parse_index(t@)),
                    None => None,
                },
                match tree {
                    Some(t) => Some(
                        tree_index(
                            names_view(t.top@),
                            names_view(t.middle@),
                            names_view(t.bottom@),
                        ),
                    ),
                    None => None,
                },
            ) {
                Ok(m) => r is Ok && r->Ok_0@ == (SystemView { root: root@, index: m }) && m.wf(),
                Err(e) => r == Err::<System, Error>(e),
            },
    {
        let file = match index_text {
            Some(t) => match Index::new(t) {
                Ok(i) => Some(i),
                Err(e) => return Err(e),
            },
            None => None,
        };
        let walked = match tree {
            Some(t) => match t.index() {
                Ok(i) => Some(i),
                Err(e) => return Err(e),
            },
            None => None,
        };
        let index = match reconcile(file, walked) {
            Reconciled::Agree(i) => i,
            Reconciled::FileOnly(i) => i,
            Reconciled::FsOnly(i) => i,
            Reconciled::Neither => Index::empty(),
            Reconciled::Conflict => return Err(Error::Desync),
        };
        Ok(System { root: root.to_owned(), index })
    }

    /// The index.
    pub fn get_index(&self) -> (r: &Index)
        ensures
            r@ == self@.index,
    {
        &self.index
    }

    /// The root directory.
    pub fn get_root(&self) -> (r: &str)
        ensures
            r@ == self@.root,
    {
        self.root.as_str()
    }

    /// The directory to make for a new area: `root/a0-a9 <title>`; fails, before
    /// the file system is touched, where the index holds the area already.
    pub fn plan_add_area(&self, area: &Area) -> (r: Result<String, Error>)
        ensures
            has_key(self@.index.areas, area@.key) ==> r == Err::<String, Error>(Error::Duplicate),
            !has_key(self@.index.areas, area@.key) ==> r is Ok && r->Ok_0@ == self@.root
                + seq!['/'] + dir_name(area@),
    {
        if find_key(self.index.get_areas(), area.key_of()).is_some() {
            return Err(Error::Duplicate);
        }
        let path = match self.index.get_path_from_area(area) {
            Ok(p) => p,
            Err(e) => return Err(e),
        };
        Ok(under(&self.root, &path))
    }

    /// The directory to make for a new category: `root/<area dir>/ac <title>`;
    /// fails, before the file system is touched, where the index holds the
    /// category already or lacks its area.
    pub fn plan_add_category(&self, category: &Category) -> (r: Result<String, Error>)
        ensures
            has_key(self@.index.categories, category@.key) ==> r == Err::<String, Error>(
                Error::Duplicate,
            ),
            !has_key(self@.index.categories, category@.key) && !has_key(
                self@.index.areas,
                category@.key / 10,
            ) ==> r == Err::<String, Error>(Error::Orphan),
            !has_key(self@.index.categories, category@.key) && has_key(
                self@.index.areas,
                category@.key / 10,
            ) ==> r is Ok && exists|a: Entry|
                #![trigger self@.index.areas.contains(a)]
                self@.index.areas.contains(a) && a.key == category@.key / 10 && r->Ok_0@
                    == self@.root + seq!['/'] + dir_name(a) + seq!['/'] + dir_name(category@),
    {
        if find_key(self.index.get_categories(), category.key_of()).is_some() {
            return Err(Error::Duplicate);
        }
        let path = match self.index.get_path_from_category(category) {
            Ok(p) => p,
            Err(e) => return Err(e),
        };
        let r = under(&self.root, &path);
        proof {
            let a = choose|a: Entry|
                #![trigger self@.index.areas.contains(a)]
                self@.index.areas.contains(a) && a.key == category@.key / 10 && path@ == seq!['/']
                    + dir_name(a) + seq!['/'] + dir_name(category@);
            assert(r@ =~= self@.root + seq!['/'] + dir_name(a) + seq!['/'] + dir_name(category@));
        }
        Ok(r)
    }

    /// The directory to make for a new id:
    /// `root/<area dir>/<category dir>/ac.id <title>`; fails, before the file
    /// system is touched, where the index holds the id already or lacks its
    /// category.
    pub fn plan_add_id(&self, id: &Id) -> (r: Result<String, Error>)
        requires
            self@.index.wf(),
        ensures
            has_key(self@.index.ids, id@.key) ==> r == Err::<String, Error>(Error::Duplicate),
            !has_key(self@.index.ids, id@.key) && !has_key(self@.index.categories, id@.key / 100)
                ==> r == Err::<String, Error>(Error::Orphan),
            !has_key(self@.index.ids, id@.key) && has_key(self@.index.categories, id@.key / 100)
                ==> r is Ok && exists|a: Entry, c: Entry|
                #![trigger self@.index.areas.contains(a), self@.index.categories.contains(c)]
                self@.index.areas.contains(a) && self@.index.categories.contains(c) && c.key
                    == id@.key / 100 && a.key == c.key / 10 && r->Ok_0@ == self@.root + seq!['/']
                    + dir_name(a) + seq!['/'] + dir_name(c) + seq!['/'] + dir_name(id@),
    {
        if find_key(self.index.get_ids(), id.key_of()).is_some() {
            return Err(Error::Duplicate);
        }
        let path = match self.index.get_path_from_id(id) {
            Ok(p) => p,
            Err(e) => return Err(e),
        };
        let r = under(&self.root, &path);
        proof {
            let (a, c) = choose|a: Entry, c: Entry|
                #![trigger self@.index.areas.contains(a), self@.index.categories.contains(c)]
                self@.index.areas.contains(a) && self@.index.categories.contains(c) && c.key
                    == id@.key / 100 && a.key == c.key / 10 && path@ == seq!['/'] + dir_name(a)
                    + seq!['/'] + dir_name(c) + seq!['/'] + dir_name(id@);
            assert(r@ =~= self@.root + seq!['/'] + dir_name(a) + seq!['/'] + dir_name(c) + seq![
                '/',
            ] + dir_name(id@));
        }
        Ok(r)
    }

    /// The directory to move to the trash for an area of the index:
    /// `root/<its dir>`, named with the title that the index holds.
    pub fn plan_remove_area(&self, area: &Area) -> (r: Result<String, Error>)
        ensures
            !has_key(self@.index.areas, area@.key) ==> r == Err::<String, Error>(Error::NotFound),
            has_key(self@.index.areas, area@.key) ==> r is Ok && exists|a: Entry|
                #![trigger self@.index.areas.contains(a)]
                self@.index.areas.contains(a) && a.key == area@.key && r->Ok_0@ == self@.root
                    + seq!['/'] + dir_name(a),
    {
        let areas = self.index.get_areas();
        let i = match find_key(areas, area.key_of()) {
            Some(i) => i,
            None => return Err(Error::NotFound),
        };
        let stored = &areas[i];
        proof {
            assert(self@.index.areas[i as int] == stored@);
        }
        let path = match self.index.get_path_from_area(stored) {
            Ok(p) => p,
            Err(e) => return Err(e),
        };
        let r = under(&self.root, &path);
        proof {
            assert(r@ =~= self@.root + seq!['/'] + dir_name(stored@));
            assert(self@.index.areas.contains(stored@));
        }
        Ok(r)
    }

    /// The directory to move to the trash for a category of the index:
    /// `root/<area dir>/<its dir>`, named with the titles that the index holds.
    pub fn plan_remove_category(&self, category: &Category) -> (r: Result<String, Error>)
        requires
            self@.index.wf(),
        ensures
            !has_key(self@.index.categories, category@.key) ==> r == Err::<String, Error>(
                Error::NotFound,
            ),
            has_key(self@.index.categories, category@.key) ==> r is Ok && exists|a: Entry, c: Entry|
                #![trigger self@.index.areas.contains(a), self@.index.categories.contains(c)]
                self@.index.areas.contains(a) && self@.index.categories.contains(c) && c.key
                    == category@.key && a.key == c.key / 10 && r->Ok_0@ == self@.root + seq!['/']
                    + dir_name(a) + seq!['/'] + dir_name(c),
    {
        let categories = self.index.get_categories();
        let i = match find_key(categories, category.key_of()) {
            Some(i) => i,
            None => return Err(Error::NotFound),
        };
        let stored = &categories[i];
        proof {
            assert(self@.index.categories[i as int] == stored@);
            assert(has_key(self@.index.areas, self@.index.categories[i as int].key / 10));
        }
        let path = match self.index.get_path_from_category(stored) {
            Ok(p) => p,
            Err(e) => return Err(e),
        };
        let r = under(&self.root, &path);
        proof {
            let a = choose|a: Entry|
                #![trigger self@.index.areas.contains(a)]
                self@.index.areas.contains(a) && a.key == stored@.key / 10 && path@ == seq!['/']
                    + dir_name(a) + seq!['/'] + dir_name(stored@);
            assert(r@ =~= self@.root + seq!['/'] + dir_name(a) + seq!['/'] + dir_name(stored@));
            assert(self@.index.categories.contains(stored@));
        }
        Ok(r)
    }

    /// The directory to move to the trash for an id of the index:
    /// `root/<area dir>/<category dir>/<its dir>`, named with the titles that the
    /// index holds.
    pub fn plan_remove_id(&self, id: &Id) -> (r: Result<String, Error>)
        requires
            self@.index.wf(),
        ensures
            !has_key(self@.index.ids, id@.key) ==> r == Err::<String, Error>(Error::NotFound),
            has_key(self@.index.ids, id@.key) ==> r is Ok && exists|a: Entry, c: Entry, d: Entry|
                #![trigger self@.index.areas.contains(a), self@.index.categories.contains(c), self@.index.ids.contains(d)]
                self@.index.areas.contains(a) && self@.index.categories.contains(c)
                    && self@.index.ids.contains(d) && d.key == id@.key && c.key == d.key / 100
                    && a.key == c.key / 10 && r->Ok_0@ == self@.root + seq!['/'] + dir_name(a)
                    + seq!['/'] + dir_name(c) + seq!['/'] + dir_name(d),
    {
        let ids = self.index.get_ids();
        let i = match find_key(ids, id.key_of()) {
            Some(i) => i,
            None => return Err(Error::NotFound),
        };
        let stored = &ids[i];
        proof {
            assert(self@.index.ids[i as int] == stored@);
            assert(has_key(self@.index.categories, self@.index.ids[i as int].key / 100));
        }
        let path = match self.index.get_path_from_id(stored) {
            Ok(p) => p,
            Err(e) => return Err(e),
        };
        let r = under(&self.root, &path);
        proof {
            let (a, c) = choose|a: Entry, c: Entry|
                #![trigger self@.index.areas.contains(a), self@.index.categories.contains(c)]
                self@.index.areas.contains(a) && self@.index.categories.contains(c) && c.key
                    == stored@.key / 100 && a.key == c.key / 10 && path@ == seq!['/'] + dir_name(a)
                    + seq!['/'] + dir_name(c) + seq!['/'] + dir_name(stored@);
            assert(r@ =~= self@.root + seq!['/'] + dir_name(a) + seq!['/'] + dir_name(c) + seq![
                '/',
            ] + dir_name(stored@));
            assert(self@.index.ids.contains(stored@));
        }
        Ok(r)
    }

    /// Records a new area once its directory is made (`made` says what became of
    /// that). A directory that was already there, or an index that cannot take
    /// the area after its directory was made, means that index and file system
    /// disagree.
    pub fn add_area(&mut self, area: &Area, made: Outcome) -> (r: Result<&Vec<Area>, Error>)
        requires
            old(self)@.index.wf(),
        ensures
            final(self)@.index.wf(),
            final(self)@.root == old(self)@.root,
            match made {
                Outcome::Done => match old(self)@.index.add_area(area@) {
                    Ok(m) => final(self)@.index == m && r is Ok && entries(r->Ok_0@) == m.areas,
                    Err(_) => final(self)@ == old(self)@ && r == Err::<&Vec<Area>, Error>(
                        Error::Desync,
                    ),
                },
                Outcome::AlreadyExists => final(self)@ == old(self)@ && r == Err::<
                    &Vec<Area>,
                    Error,
                >(Error::Desync),
                Outcome::Failed => final(self)@ == old(self)@ && r == Err::<&Vec<Area>, Error>(
                    Error::Io,
                ),
            },
    {
        match made {
            Outcome::Done => match self.index.add_area(area) {
                Ok(v) => Ok(v),
                Err(_) => Err(Error::Desync),
            },
            Outcome::AlreadyExists => Err(Error::Desync),
            Outcome::Failed => Err(Error::Io),
        }
    }

    /// Forgets an area once its directory went to the trash (`trashed` says what
    /// became of that); where it did not, the index stays as it was.
    pub fn remove_area(&mut self, area: &Area, trashed: Outcome) -> (r: Result<&Vec<Area>, Error>)
        requires
            old(self)@.index.wf(),
        ensures
            final(self)@.index.wf(),
            final(self)@.root == old(self)@.root,
            match trashed {
                Outcome::Done => match old(self)@.index.remove_area(area@.key) {
                    Ok(m) => final(self)@.index == m && r is Ok && entries(r->Ok_0@) == m.areas,
                    Err(e) => final(self)@ == old(self)@ && r == Err::<&Vec<Area>, Error>(e),
                },
                _ => final(self)@ == old(self)@ && r == Err::<&Vec<Area>, Error>(Error::Io),
            },
    {
        match trashed {
            Outcome::Done => self.index.remove_area(area),
            _ => Err(Error::Io),
        }
    }

    /// Records a new category once its directory is made (`made` says what became of
    /// that). A directory that was already there, or an index that cannot take
    /// the category after its directory was made, means that index and file system
    /// disagree.
    pub fn add_category(&mut self, category: &Category, made: Outcome) -> (r: Result<&Vec<Category>, Error>)
        requires
            old(self)@.index.wf(),
        ensures
            final(self)@.index.wf(),
            final(self)@.root == old(self)@.root,
            match made {
                Outcome::Done => match old(self)@.index.add_category(category@) {
                    Ok(m) => final(self)@.index == m && r is Ok && entries(r->Ok_0@) == m.categories,
                    Err(_) => final(self)@ == old(self)@ && r == Err::<&Vec<Category>, Error>(
                        Error::Desync,
                    ),
                },
                Outcome::AlreadyExists => final(self)@ == old(self)@ && r == Err::<
                    &Vec<Category>,
                    Error,
                >(Error::Desync),
                Outcome::Failed => final(self)@ == old(self)@ && r == Err::<&Vec<Category>, Error>(
                    Error::Io,
                ),
            },
    {
        match made {
            Outcome::Done => match self.index.add_category(category) {
                Ok(v) => Ok(v),
                Err(_) => Err(Error::Desync),
            },
            Outcome::AlreadyExists => Err(Error::Desync),
            Outcome::Failed => Err(Error::Io),
        }
    }

    /// Forgets a category once its directory went to the trash (`trashed` says what
    /// became of that); where it did not, the index stays as it was.
    pub fn remove_category(&mut self, category: &Category, trashed: Outcome) -> (r: Result<&Vec<Category>, Error>)
        requires
            old(self)@.index.wf(),
        ensures
            final(self)@.index.wf(),
            final(self)@.root == old(self)@.root,
            match trashed {
                Outcome::Done => match old(self)@.index.remove_category(category@.key) {
                    Ok(m) => final(self)@.index == m && r is Ok && entries(r->Ok_0@) == m.categories,
                    Err(e) => final(self)@ == old(self)@ && r == Err::<&Vec<Category>, Error>(e),
                },
                _ => final(self)@ == old(self)@ && r == Err::<&Vec<Category>, Error>(Error::Io),
            },
    {
        match trashed {
            Outcome::Done => self.index.remove_category(category),
            _ => Err(Error::Io),
        }
    }

    /// Records a new id once its directory is made (`made` says what became of
    /// that). A directory that was already there, or an index that cannot take
    /// the id after its directory was made, means that index and file system
    /// disagree.
    pub fn add_id(&mut self, id: &Id, made: Outcome) -> (r: Result<&Vec<Id>, Error>)
        requires
            old(self)@.index.wf(),
        ensures
            final(self)@.index.wf(),
            final(self)@.root == old(self)@.root,
            match made {
                Outcome::Done => match old(self)@.index.add_id(id@) {
                    Ok(m) => final(self)@.index == m && r is Ok && entries(r->Ok_0@) == m.ids,
                    Err(_) => final(self)@ == old(self)@ && r == Err::<&Vec<Id>, Error>(
                        Error::Desync,
                    ),
                },
                Outcome::AlreadyExists => final(self)@ == old(self)@ && r == Err::<
                    &Vec<Id>,
                    Error,
                >(Error::Desync),
                Outcome::Failed => final(self)@ == old(self)@ && r == Err::<&Vec<Id>, Error>(
                    Error::Io,
                ),
            },
    {
        match made {
            Outcome::Done => match self.index.add_id(id) {
                Ok(v) => Ok(v),
                Err(_) => Err(Error::Desync),
            },
            Outcome::AlreadyExists => Err(Error::Desync),
            Outcome::Failed => Err(Error::Io),
        }
    }

    /// Forgets an id once its directory went to the trash (`trashed` says what
    /// became of that); where it did not, the index stays as it was.
    pub fn remove_id(&mut self, id: &Id, trashed: Outcome) -> (r: Result<&Vec<Id>, Error>)
        requires
            old(self)@.index.wf(),
        ensures
            final(self)@.index.wf(),
            final(self)@.root == old(self)@.root,
            match trashed {
                Outcome::Done => match old(self)@.index.remove_id(id@.key) {
                    Ok(m) => final(self)@.index == m && r is Ok && entries(r->Ok_0@) == m.ids,
                    Err(e) => final(self)@ == old(self)@ && r == Err::<&Vec<Id>, Error>(e),
                },
                _ => final(self)@ == old(self)@ && r == Err::<&Vec<Id>, Error>(Error::Io),
            },
    {
        match trashed {
            Outcome::Done => self.index.remove_id(id),
            _ => Err(Error::Io),
        }
    }
}

} // verus!
