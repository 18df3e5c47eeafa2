//! The entity grammar: areas `a0-a9 <title>`, categories `ac <title>` and ids
//! `ac.id <title>`, what each name parses to, and the entity types.

use vstd::prelude::*;
use vstd::string::*;
use core::cmp::Ordering;
use vstd::std_specs::cmp::PartialEqSpec;

use crate::error::{Error, Violation};
use crate::title::{is_valid_title, valid_title};

verus! {

/// What an area, a category or an id stands for: its numeric key (by which it is
/// compared and sorted), its code as written and its title.
pub struct Entry {
    pub key: nat,
    pub code: Seq<char>,
    pub title: Seq<char>,
}

/// An ASCII digit.
pub open spec fn is_digit(c: char) -> bool {
    '0' <= c && c <= '9'
}

/// The value of the digit `c`.
pub open spec fn digit(c: char) -> nat {
    (c as int - '0' as int) as nat
}

/// The area range `a0-a9` of the leading digit `a`.
pub open spec fn range_of(a: char) -> Seq<char> {
    seq![a, '0', '-', a, '9']
}

/// The first grammar rule that `s` breaks as an area `a0-a9 <title>`, if any.
pub open spec fn area_violation(s: Seq<char>) -> Option<Violation> {
    if s.len() < 5 {
        Some(Violation::TooShort)
    } else if !is_digit(s[0]) {
        Some(Violation::BadDigit)
    } else if s[1] != '0' {
        Some(Violation::BadRangeStart)
    } else if s[2] != '-' {
        Some(Violation::MissingSeparator)
    } else if s[3] != s[0] || s[4] != '9' {
        Some(Violation::BadRangeEnd)
    } else if s.len() < 7 {
        Some(Violation::MissingTitle)
    } else if s[5] != ' ' {
        Some(Violation::MissingSpace)
    } else if !valid_title(s.subrange(6, s.len() as int)) {
        Some(Violation::UnsafeTitle)
    } else {
        None
    }
}

/// The area that a valid name `s` describes.
pub open spec fn area_entry(s: Seq<char>) -> Entry {
    Entry { key: digit(s[0]), code: s.subrange(0, 5), title: s.subrange(6, s.len() as int) }
}

/// What parsing `s` as an area gives.
pub open spec fn parse_area(s: Seq<char>) -> Result<Entry, Error> {
    match area_violation(s) {
        Some(v) => Err(Error::Grammar(v)),
        None => Ok(area_entry(s)),
    }
}

/// The first grammar rule that `s` breaks as a category `ac <title>`, if any.
pub open spec fn category_violation(s: Seq<char>) -> Option<Violation> {
    if s.len() < 2 {
        Some(Violation::TooShort)
    } else if !is_digit(s[0]) || !is_digit(s[1]) {
        Some(Violation::BadDigit)
    } else if s.len() < 4 {
        Some(Violation::MissingTitle)
    } else if s[2] != ' ' {
        Some(Violation::MissingSpace)
    } else if !valid_title(s.subrange(3, s.len() as int)) {
        Some(Violation::UnsafeTitle)
    } else {
        None
    }
}

/// The category that a valid name `s` describes.
pub open spec fn category_entry(s: Seq<char>) -> Entry {
    Entry {
        key: 10 * digit(s[0]) + digit(s[1]),
        code: s.subrange(0, 2),
        title: s.subrange(3, s.len() as int),
    }
}

/// What parsing `s` as a category gives.
pub open spec fn parse_category(s: Seq<char>) -> Result<Entry, Error> {
    match category_violation(s) {
        Some(v) => Err(Error::Grammar(v)),
        None => Ok(category_entry(s)),
    }
}

/// The first grammar rule that `s` breaks as an id `ac.id <title>`, if any.
pub open spec fn id_violation(s: Seq<char>) -> Option<Violation> {
    if s.len() < 5 {
        Some(Violation::TooShort)
    } else if !is_digit(s[0]) || !is_digit(s[1]) {
        Some(Violation::BadDigit)
    } else if s[2] != '.' {
        Some(Violation::MissingSeparator)
    } else if !is_digit(s[3]) || !is_digit(s[4]) {
        Some(Violation::BadDigit)
    } else if s.len() < 7 {
        Some(Violation::MissingTitle)
    } else if s[5] != ' ' {
        Some(Violation::MissingSpace)
    } else if !valid_title(s.subrange(6, s.len() as int)) {
        Some(Violation::UnsafeTitle)
    } else {
        None
    }
}

/// The id that a valid name `s` describes.
pub open spec fn id_entry(s: Seq<char>) -> Entry {
    Entry {
        key: 1000 * digit(s[0]) + 100 * digit(s[1]) + 10 * digit(s[3]) + digit(s[4]),
        code: s.subrange(0, 5),
        title: s.subrange(6, s.len() as int),
    }
}

/// What parsing `s` as an id gives.
pub open spec fn parse_id(s: Seq<char>) -> Result<Entry, Error> {
    match id_violation(s) {
        Some(v) => Err(Error::Grammar(v)),
        None => Ok(id_entry(s)),
    }
}

/// The name of the directory that holds an entry: `<code> <title>`.
pub open spec fn dir_name(e: Entry) -> Seq<char> {
    e.code + seq![' '] + e.title
}

/// Orders two keys.
pub open spec fn compare_keys(a: nat, b: nat) -> Ordering {
    if a < b {
        Ordering::Less
    } else if a == b {
        Ordering::Equal
    } else {
        Ordering::Greater
    }
}

/// Reads the digit `c` stands for.
fn digit_value(c: char) -> (r: u32)
    requires
        is_digit(c),
    ensures
        r == digit(c),
        r < 10,
{
    (c as u32) - ('0' as u32)
}

/// Whether `c` is an ASCII digit.
fn char_is_digit(c: char) -> (r: bool)
    ensures
        r == is_digit(c),
{
    '0' <= c && c <= '9'
}

/// Orders two keys.
fn order(a: u32, b: u32) -> (r: Ordering)
    ensures
        r == compare_keys(a as nat, b as nat),
{
    if a < b {
        Ordering::Less
    } else if a == b {
        Ordering::Equal
    } else {
        Ordering::Greater
    }
}

/// Writes `<code> <title>`.
fn join_name(code: &str, title: &str) -> (r: String)
    ensures
        r@ == code@ + seq![' '] + title@,
{
    let mut r = String::from_str(code);
    r.append(" ");
    r.append(title);
    proof {
        reveal_strlit(" ");
    }
    r
}

/// Writes the area range `a0-a9` for the code whose leading digit is that of `code`.
fn range_text(code: &str) -> (r: String)
    requires
        code@.len() >= 1,
    ensures
        r@ == range_of(code@[0]),
{
    let lead = code.substring_char(0, 1);
    let mut r = String::from_str(lead);
    r.append("0-");
    r.append(lead);
    r.append("9");
    proof {
        reveal_strlit("0-");
        reveal_strlit("9");
        assert(r@ =~= range_of(code@[0]));
    }
    r
}

/// A line that starts with a digit and holds no line break.
pub open spec fn clean_line(l: Seq<char>) -> bool {
    &&& l.len() > 0
    &&& is_digit(l[0])
    &&& !l.contains('\n')
    &&& !l.contains('\r')
}

/// `<code> <title>` holds no line break where the code holds none and the title
/// is valid.
proof fn lemma_clean_name(code: Seq<char>, title: Seq<char>)
    requires
        code.len() > 0,
        is_digit(code[0]),
        !code.contains('\n'),
        !code.contains('\r'),
        valid_title(title),
    ensures
        clean_line(code + seq![' '] + title),
{
    let l = code + seq![' '] + title;
    assert forall|c: char| (c == '\n' || c == '\r') implies !l.contains(c) by {
        if l.contains(c) {
            let k = choose|k: int| 0 <= k < l.len() && l[k] == c;
            if k < code.len() {
                assert(code[k] == c);
            } else if k > code.len() {
                assert(title[k - code.len() - 1] == c);
            }
        }
    }
}

/// An entity with a numeric key: an area, a category or an id.
pub trait Keyed: View<V = Entry> + Sized {
    /// The numeric key.
    fn key_of(&self) -> (r: u32)
        ensures
            r == self@.key,
            r < 10000,
    ;

    /// A copy of the entity.
    fn duplicate(&self) -> (r: Self)
        ensures
            r@ == self@,
    ;

    /// `e` is an entity of this kind whose directory name, as a line of an
    /// index file, reads back as `e`.
    spec fn reads_back(e: Entry) -> bool;

    /// The directory name `<code> <title>`.
    fn dir_name(&self) -> (r: String)
        ensures
            r@ == dir_name(self@),
            Self::reads_back(self@),
    ;
}

/// `10-19 Area`: an area, a range of ten categories `a0` to `a9`.
#[derive(Debug)]
pub struct Area {
    code: String,
    name: String,
}

impl View for Area {
    type V = Entry;

    closed spec fn view(&self) -> Entry {
        Entry { key: digit(self.code@[0]), code: self.code@, title: self.name@ }
    }
}

impl Clone for Area {
    fn clone(&self) -> (r: Area)
        ensures
            r@ == self@,
    {
        proof {
            use_type_invariant(self);
        }
        Area { code: self.code.clone(), name: self.name.clone() }
    }
}

impl Area {
    #[verifier::type_invariant]
    spec fn inv(self) -> bool {
        &&& self.code@.len() == 5
        &&& is_digit(self.code@[0])
        &&& self.code@ == range_of(self.code@[0])
        &&& valid_title(self.name@)
    }

    /// Parses `a0-a9 <title>`; the error names the first rule that `s` breaks.
    pub fn new(s: &str) -> (r: Result<Area, Error>)
        ensures
            match r {
                Ok(a) => parse_area(s@) == Ok::<Entry, Error>(a@),
                Err(e) => parse_area(s@) == Err::<Entry, Error>(e),
            },
            s@.len() > 6 && s@.subrange(6, s@.len() as int).contains('/') ==> r is Err,
    {
        let n = s.unicode_len();
        if n < 5 {
            return Err(Error::Grammar(Violation::TooShort));
        }
        let c0 = s.get_char(0);
        if !char_is_digit(c0) {
            return Err(Error::Grammar(Violation::BadDigit));
        }
        if s.get_char(1) != '0' {
            return Err(Error::Grammar(Violation::BadRangeStart));
        }
        if s.get_char(2) != '-' {
            return Err(Error::Grammar(Violation::MissingSeparator));
        }
        if s.get_char(3) != c0 || s.get_char(4) != '9' {
            return Err(Error::Grammar(Violation::BadRangeEnd));
        }
        if n < 7 {
            return Err(Error::Grammar(Violation::MissingTitle));
        }
        if s.get_char(5) != ' ' {
            return Err(Error::Grammar(Violation::MissingSpace));
        }
        let title = s.substring_char(6, n);
        if !is_valid_title(title) {
            return Err(Error::Grammar(Violation::UnsafeTitle));
        }
        let code = s.substring_char(0, 5).to_owned();
        proof {
            assert(code@ =~= range_of(s@[0]));
        }
        Ok(Area { code, name: title.to_owned() })
    }

    /// The numeric key of the area: its leading digit.
    pub fn key(&self) -> (r: u32)
        ensures
            r == self@.key,
            r < 10,
    {
        proof {
            use_type_invariant(self);
        }
        digit_value(self.code.as_str().get_char(0))
    }

    /// The range `a0-a9`.
    pub fn get_area(&self) -> (r: &str)
        ensures
            r@ == self@.code,
    {
        self.code.as_str()
    }

    /// The title.
    pub fn get_name(&self) -> (r: &str)
        ensures
            r@ == self@.title,
    {
        self.name.as_str()
    }
    /// The directory name `a0-a9 <title>`.
    pub fn dir_name(&self) -> (r: String)
        ensures
            r@ == dir_name(self@),
    {
        join_name(self.code.as_str(), self.name.as_str())
    }

    /// Replaces the title, where `name` is safe as a file name.
    pub fn set_name(&mut self, name: &str) -> (r: Result<&Self, Error>)
        ensures
            r is Ok <==> valid_title(name@),
            r is Ok ==> final(self)@ == (Entry { title: name@, ..old(self)@ }) && r->Ok_0@ == final(self)@,
            r is Err ==> r == Err::<&Self, Error>(Error::Grammar(Violation::UnsafeTitle))
                && final(self)@ == old(self)@,
    {
        if !is_valid_title(name) {
            return Err(Error::Grammar(Violation::UnsafeTitle));
        }
        proof {
            use_type_invariant(&*self);
        }
        self.name = name.to_owned();
        Ok(self)
    }
}

impl PartialEq for Area {
    fn eq(&self, other: &Area) -> (r: bool) {
        self.key() == other.key()
    }
}

impl vstd::std_specs::cmp::PartialEqSpecImpl for Area {
    open spec fn obeys_eq_spec() -> bool {
        true
    }

    open spec fn eq_spec(&self, other: &Area) -> bool {
        self@.key == other@.key
    }
}

impl Eq for Area {
}

impl PartialOrd for Area {
    fn partial_cmp(&self, other: &Area) -> (r: Option<Ordering>) {
        Some(order(self.key(), other.key()))
    }
}

impl vstd::std_specs::cmp::PartialOrdSpecImpl for Area {
    open spec fn obeys_partial_cmp_spec() -> bool {
        true
    }

    open spec fn partial_cmp_spec(&self, other: &Area) -> Option<Ordering> {
        Some(compare_keys(self@.key, other@.key))
    }
}


/// `11 Category`: a category `ac`, which belongs to the area `a0-a9`.
#[derive(Debug)]
pub struct Category {
    code: String,
    name: String,
}

impl View for Category {
    type V = Entry;

    closed spec fn view(&self) -> Entry {
        Entry {
            key: 10 * digit(self.code@[0]) + digit(self.code@[1]),
            code: self.code@,
            title: self.name@,
        }
    }
}

impl Clone for Category {
    fn clone(&self) -> (r: Category)
        ensures
            r@ == self@,
    {
        proof {
            use_type_invariant(self);
        }
        Category { code: self.code.clone(), name: self.name.clone() }
    }
}

impl Category {
    #[verifier::type_invariant]
    spec fn inv(self) -> bool {
        &&& self.code@.len() == 2
        &&& is_digit(self.code@[0])
        &&& is_digit(self.code@[1])
        &&& valid_title(self.name@)
    }

    /// Parses `ac <title>`; the error names the first rule that `s` breaks.
    pub fn new(s: &str) -> (r: Result<Category, Error>)
        ensures
            match r {
                Ok(c) => parse_category(s@) == Ok::<Entry, Error>(c@),
                Err(e) => parse_category(s@) == Err::<Entry, Error>(e),
            },
            s@.len() > 3 && s@.subrange(3, s@.len() as int).contains('/') ==> r is Err,
    {
        let n = s.unicode_len();
        if n < 2 {
            return Err(Error::Grammar(Violation::TooShort));
        }
        if !char_is_digit(s.get_char(0)) || !char_is_digit(s.get_char(1)) {
            return Err(Error::Grammar(Violation::BadDigit));
        }
        if n < 4 {
            return Err(Error::Grammar(Violation::MissingTitle));
        }
        if s.get_char(2) != ' ' {
            return Err(Error::Grammar(Violation::MissingSpace));
        }
        let title = s.substring_char(3, n);
        if !is_valid_title(title) {
            return Err(Error::Grammar(Violation::UnsafeTitle));
        }
        let code = s.substring_char(0, 2).to_owned();
        Ok(Category { code, name: title.to_owned() })
    }

    /// The numeric key of the category: its two digits as a number.
    pub fn key(&self) -> (r: u32)
        ensures
            r == self@.key,
            r < 100,
    {
        proof {
            use_type_invariant(self);
        }
        let s = self.code.as_str();
        10 * digit_value(s.get_char(0)) + digit_value(s.get_char(1))
    }

    /// The key of the area that the category belongs to.
    pub fn area_key(&self) -> (r: u32)
        ensures
            r == self@.key / 10,
    {
        self.key() / 10
    }

    /// The area range `a0-a9` that the category belongs to.
    pub fn get_area(&self) -> (r: String)
        ensures
            r@ == range_of(self@.code[0]),
    {
        proof {
            use_type_invariant(self);
        }
        range_text(self.code.as_str())
    }

    /// The code `ac`.
    pub fn get_category(&self) -> (r: &str)
        ensures
            r@ == self@.code,
    {
        self.code.as_str()
    }

    /// The title.
    pub fn get_name(&self) -> (r: &str)
        ensures
            r@ == self@.title,
    {
        self.name.as_str()
    }

    /// The directory name `ac <title>`.
    pub fn dir_name(&self) -> (r: String)
        ensures
            r@ == dir_name(self@),
    {
        join_name(self.code.as_str(), self.name.as_str())
    }

    /// Replaces the title, where `name` is safe as a file name.
    pub fn set_name(&mut self, name: &str) -> (r: Result<&Self, Error>)
        ensures
            r is Ok <==> valid_title(name@),
            r is Ok ==> final(self)@ == (Entry { title: name@, ..old(self)@ }) && r->Ok_0@ == final(self)@,
            r is Err ==> r == Err::<&Self, Error>(Error::Grammar(Violation::UnsafeTitle))
                && final(self)@ == old(self)@,
    {
        if !is_valid_title(name) {
            return Err(Error::Grammar(Violation::UnsafeTitle));
        }
        proof {
            use_type_invariant(&*self);
        }
        self.name = name.to_owned();
        Ok(self)
    }
}

impl PartialEq for Category {
    fn eq(&self, other: &Category) -> (r: bool) {
        self.key() == other.key()
    }
}

impl vstd::std_specs::cmp::PartialEqSpecImpl for Category {
    open spec fn obeys_eq_spec() -> bool {
        true
    }

    open spec fn eq_spec(&self, other: &Category) -> bool {
        self@.key == other@.key
    }
}

impl Eq for Category {
}

impl PartialOrd for Category {
    fn partial_cmp(&self, other: &Category) -> (r: Option<Ordering>) {
        Some(order(self.key(), other.key()))
    }
}

impl vstd::std_specs::cmp::PartialOrdSpecImpl for Category {
    open spec fn obeys_partial_cmp_spec() -> bool {
        true
    }

    open spec fn partial_cmp_spec(&self, other: &Category) -> Option<Ordering> {
        Some(compare_keys(self@.key, other@.key))
    }
}

/// `11.01 Id`: an id `ac.id`, which belongs to the category `ac`.
#[derive(Debug)]
pub struct Id {
    code: String,
    name: String,
}

impl View for Id {
    type V = Entry;

    closed spec fn view(&self) -> Entry {
        Entry {
            key: 1000 * digit(self.code@[0]) + 100 * digit(self.code@[1]) + 10 * digit(
                self.code@[3],
            ) + digit(self.code@[4]),
            code: self.code@,
            title: self.name@,
        }
    }
}

impl Clone for Id {
    fn clone(&self) -> (r: Id)
        ensures
            r@ == self@,
    {
        proof {
            use_type_invariant(self);
        }
        Id { code: self.code.clone(), name: self.name.clone() }
    }
}

impl Id {
    #[verifier::type_invariant]
    spec fn inv(self) -> bool {
        &&& self.code@.len() == 5
        &&& is_digit(self.code@[0])
        &&& is_digit(self.code@[1])
        &&& self.code@[2] == '.'
        &&& is_digit(self.code@[3])
        &&& is_digit(self.code@[4])
        &&& valid_title(self.name@)
    }

    /// Parses `ac.id <title>`; the error names the first rule that `s` breaks.
    pub fn new(s: &str) -> (r: Result<Id, Error>)
        ensures
            match r {
                Ok(i) => parse_id(s@) == Ok::<Entry, Error>(i@),
                Err(e) => parse_id(s@) == Err::<Entry, Error>(e),
            },
            s@.len() > 6 && s@.subrange(6, s@.len() as int).contains('/') ==> r is Err,
    {
        let n = s.unicode_len();
        if n < 5 {
            return Err(Error::Grammar(Violation::TooShort));
        }
        if !char_is_digit(s.get_char(0)) || !char_is_digit(s.get_char(1)) {
            return Err(Error::Grammar(Violation::BadDigit));
        }
        if s.get_char(2) != '.' {
            return Err(Error::Grammar(Violation::MissingSeparator));
        }
        if !char_is_digit(s.get_char(3)) || !char_is_digit(s.get_char(4)) {
            return Err(Error::Grammar(Violation::BadDigit));
        }
        if n < 7 {
            return Err(Error::Grammar(Violation::MissingTitle));
        }
        if s.get_char(5) != ' ' {
            return Err(Error::Grammar(Violation::MissingSpace));
        }
        let title = s.substring_char(6, n);
        if !is_valid_title(title) {
            return Err(Error::Grammar(Violation::UnsafeTitle));
        }
        let code = s.substring_char(0, 5).to_owned();
        Ok(Id { code, name: title.to_owned() })
    }

    /// The numeric key of the id: its four digits as a number.
    pub fn key(&self) -> (r: u32)
        ensures
            r == self@.key,
            r < 10000,
    {
        proof {
            use_type_invariant(self);
        }
        let s = self.code.as_str();
        1000 * digit_value(s.get_char(0)) + 100 * digit_value(s.get_char(1)) + 10 * digit_value(
            s.get_char(3),
        ) + digit_value(s.get_char(4))
    }

    /// The key of the category that the id belongs to.
    pub fn category_key(&self) -> (r: u32)
        ensures
            r == self@.key / 100,
    {
        self.key() / 100
    }

    /// The area range `a0-a9` that the id belongs to.
    pub fn get_area(&self) -> (r: String)
        ensures
            r@ == range_of(self@.code[0]),
    {
        proof {
            use_type_invariant(self);
        }
        range_text(self.code.as_str())
    }

    /// The code `ac` of the category that the id belongs to.
    pub fn get_category(&self) -> (r: &str)
        ensures
            r@ == self@.code.subrange(0, 2),
    {
        proof {
            use_type_invariant(self);
        }
        self.code.as_str().substring_char(0, 2)
    }

    /// The code `ac.id`.
    pub fn get_id(&self) -> (r: &str)
        ensures
            r@ == self@.code,
    {
        self.code.as_str()
    }

    /// The title.
    pub fn get_name(&self) -> (r: &str)
        ensures
            r@ == self@.title,
    {
        self.name.as_str()
    }

    /// The directory name `ac.id <title>`.
    pub fn dir_name(&self) -> (r: String)
        ensures
            r@ == dir_name(self@),
    {
        join_name(self.code.as_str(), self.name.as_str())
    }

    /// Replaces the title, where `name` is safe as a file name.
    pub fn set_name(&mut self, name: &str) -> (r: Result<&Self, Error>)
        ensures
            r is Ok <==> valid_title(name@),
            r is Ok ==> final(self)@ == (Entry { title: name@, ..old(self)@ }) && r->Ok_0@ == final(self)@,
            r is Err ==> r == Err::<&Self, Error>(Error::Grammar(Violation::UnsafeTitle))
                && final(self)@ == old(self)@,
    {
        if !is_valid_title(name) {
            return Err(Error::Grammar(Violation::UnsafeTitle));
        }
        proof {
            use_type_invariant(&*self);
        }
        self.name = name.to_owned();
        Ok(self)
    }
}

impl PartialEq for Id {
    fn eq(&self, other: &Id) -> (r: bool) {
        self.key() == other.key()
    }
}

impl vstd::std_specs::cmp::PartialEqSpecImpl for Id {
    open spec fn obeys_eq_spec() -> bool {
        true
    }

    open spec fn eq_spec(&self, other: &Id) -> bool {
        self@.key == other@.key
    }
}

impl Eq for Id {
}

impl PartialOrd for Id {
    fn partial_cmp(&self, other: &Id) -> (r: Option<Ordering>) {
        Some(order(self.key(), other.key()))
    }
}

impl vstd::std_specs::cmp::PartialOrdSpecImpl for Id {
    open spec fn obeys_partial_cmp_spec() -> bool {
        true
    }

    open spec fn partial_cmp_spec(&self, other: &Id) -> Option<Ordering> {
        Some(compare_keys(self@.key, other@.key))
    }
}

impl Keyed for Area {
    fn key_of(&self) -> (r: u32) {
        self.key()
    }

    fn duplicate(&self) -> (r: Area) {
        self.clone()
    }

    open spec fn reads_back(e: Entry) -> bool {
        let l = dir_name(e);
        &&& clean_line(l)
        &&& parse_id(l) is Err
        &&& parse_category(l) is Err
        &&& parse_area(l) == Ok::<Entry, Error>(e)
    }

    fn dir_name(&self) -> (r: String) {
        proof {
            use_type_invariant(self);
            let code = self.code@;
            let l = code + seq![' '] + self.name@;
            assert forall|c: char| (c == '\n' || c == '\r') implies !code.contains(c) by {
                if code.contains(c) {
                    let k = choose|k: int| 0 <= k < code.len() && code[k] == c;
                }
            }
            lemma_clean_name(code, self.name@);
            assert(l.subrange(0, 5) =~= code);
            assert(l.subrange(6, l.len() as int) =~= self.name@);
        }
        Area::dir_name(self)
    }
}

impl Keyed for Category {
    fn key_of(&self) -> (r: u32) {
        self.key()
    }

    fn duplicate(&self) -> (r: Category) {
        self.clone()
    }

    open spec fn reads_back(e: Entry) -> bool {
        let l = dir_name(e);
        &&& clean_line(l)
        &&& parse_id(l) is Err
        &&& parse_category(l) == Ok::<Entry, Error>(e)
    }

    fn dir_name(&self) -> (r: String) {
        proof {
            use_type_invariant(self);
            let code = self.code@;
            let l = code + seq![' '] + self.name@;
            assert forall|c: char| (c == '\n' || c == '\r') implies !code.contains(c) by {
                if code.contains(c) {
                    let k = choose|k: int| 0 <= k < code.len() && code[k] == c;
                }
            }
            lemma_clean_name(code, self.name@);
            assert(l.subrange(0, 2) =~= code);
            assert(l.subrange(3, l.len() as int) =~= self.name@);
        }
        Category::dir_name(self)
    }
}

impl Keyed for Id {
    fn key_of(&self) -> (r: u32) {
        self.key()
    }

    fn duplicate(&self) -> (r: Id) {
        self.clone()
    }

    open spec fn reads_back(e: Entry) -> bool {
        let l = dir_name(e);
        &&& clean_line(l)
        &&& parse_id(l) == Ok::<Entry, Error>(e)
    }

    fn dir_name(&self) -> (r: String) {
        proof {
            use_type_invariant(self);
            let code = self.code@;
            let l = code + seq![' '] + self.name@;
            assert forall|c: char| (c == '\n' || c == '\r') implies !code.contains(c) by {
                if code.contains(c) {
                    let k = choose|k: int| 0 <= k < code.len() && code[k] == c;
                }
            }
            lemma_clean_name(code, self.name@);
            assert(l.subrange(0, 5) =~= code);
            assert(l.subrange(6, l.len() as int) =~= self.name@);
        }
        Id::dir_name(self)
    }
}

/// An index line or a directory name, read as the entity it names.
#[derive(Debug)]
pub enum Line {
    Area(Area),
    Category(Category),
    Id(Id),
}

/// Reads `s` as an id, else as a category, else as an area: the id grammar has
/// the most fixed characters, so it is tried first.
pub fn classify_line(s: &str) -> (r: Option<Line>)
    ensures
        match r {
            Some(Line::Id(i)) => parse_id(s@) == Ok::<Entry, Error>(i@),
            Some(Line::Category(c)) => parse_id(s@) is Err && parse_category(s@) == Ok::<
                Entry,
                Error,
            >(c@),
            Some(Line::Area(a)) => parse_id(s@) is Err && parse_category(s@) is Err && parse_area(
                s@,
            ) == Ok::<Entry, Error>(a@),
            None => parse_id(s@) is Err && parse_category(s@) is Err && parse_area(s@) is Err,
        },
{
    if let Ok(i) = Id::new(s) {
        return Some(Line::Id(i));
    }
    if let Ok(c) = Category::new(s) {
        return Some(Line::Category(c));
    }
    if let Ok(a) = Area::new(s) {
        return Some(Line::Area(a));
    }
    None
}

/// Writing an area range `a0-a9` and a valid title as `a0-a9 <title>` and parsing
/// it gives back that range and that title.
pub proof fn lemma_area_round_trip(a: char, title: Seq<char>)
    requires
        is_digit(a),
        valid_title(title),
    ensures
        parse_area(range_of(a) + seq![' '] + title) is Ok,
        parse_area(range_of(a) + seq![' '] + title)->Ok_0.code == range_of(a),
        parse_area(range_of(a) + seq![' '] + title)->Ok_0.title == title,
{
    let s = range_of(a) + seq![' '] + title;
    assert(s.subrange(0, 5) =~= range_of(a));
    assert(s.subrange(6, s.len() as int) =~= title);
}

/// Writing a two-digit code and a valid title as `ac <title>` and parsing it
/// gives back that code and that title.
pub proof fn lemma_category_round_trip(code: Seq<char>, title: Seq<char>)
    requires
        code.len() == 2,
        is_digit(code[0]),
        is_digit(code[1]),
        valid_title(title),
    ensures
        parse_category(code + seq![' '] + title) is Ok,
        parse_category(code + seq![' '] + title)->Ok_0.code == code,
        parse_category(code + seq![' '] + title)->Ok_0.title == title,
{
    let s = code + seq![' '] + title;
    assert(s.subrange(0, 2) =~= code);
    assert(s.subrange(3, s.len() as int) =~= title);
}

/// Writing an id code `ac.id` and a valid title as `ac.id <title>` and parsing it
/// gives back that code and that title.
pub proof fn lemma_id_round_trip(code: Seq<char>, title: Seq<char>)
    requires
        code.len() == 5,
        is_digit(code[0]),
        is_digit(code[1]),
        code[2] == '.',
        is_digit(code[3]),
        is_digit(code[4]),
        valid_title(title),
    ensures
        parse_id(code + seq![' '] + title) is Ok,
        parse_id(code + seq![' '] + title)->Ok_0.code == code,
        parse_id(code + seq![' '] + title)->Ok_0.title == title,
{
    let s = code + seq![' '] + title;
    assert(s.subrange(0, 5) =~= code);
    assert(s.subrange(6, s.len() as int) =~= title);
}

/// The grammar turns away the empty name, a name too short for its code, a
/// non-digit where a digit belongs, a missing separator, an area range whose ends
/// do not match, a code not followed by a space, and a code with no title.
pub proof fn lemma_rejections(s: Seq<char>)
    ensures
        s.len() == 0 ==> parse_area(s) is Err && parse_category(s) is Err && parse_id(s) is Err,
        s.len() < 5 ==> parse_area(s) == Err::<Entry, Error>(Error::Grammar(Violation::TooShort)),
        s.len() < 2 ==> parse_category(s) == Err::<Entry, Error>(
            Error::Grammar(Violation::TooShort),
        ),
        s.len() < 5 ==> parse_id(s) == Err::<Entry, Error>(Error::Grammar(Violation::TooShort)),
        s.len() >= 5 && !is_digit(s[0]) ==> parse_area(s) is Err && parse_id(s) is Err,
        s.len() >= 2 && (!is_digit(s[0]) || !is_digit(s[1])) ==> parse_category(s) is Err,
        s.len() >= 5 && (!is_digit(s[3]) || !is_digit(s[4])) ==> parse_id(s) is Err,
        s.len() >= 5 && s[2] != '-' ==> parse_area(s) is Err,
        s.len() >= 5 && s[2] != '.' ==> parse_id(s) is Err,
        s.len() >= 5 && (s[1] != '0' || s[3] != s[0] || s[4] != '9') ==> parse_area(s) is Err,
        s.len() >= 6 && s[5] != ' ' ==> parse_area(s) is Err && parse_id(s) is Err,
        s.len() >= 3 && s[2] != ' ' ==> parse_category(s) is Err,
        s.len() == 6 ==> parse_area(s) is Err && parse_id(s) is Err,
        s.len() == 3 ==> parse_category(s) is Err,
{
}

/// Two areas with the same code are equal, whatever their titles.
pub proof fn lemma_area_eq_by_code(a: Area, b: Area)
    requires
        a@.code == b@.code,
    ensures
        a.eq_spec(&b),
{
}

/// Two categories with the same code are equal, whatever their titles.
pub proof fn lemma_category_eq_by_code(a: Category, b: Category)
    requires
        a@.code == b@.code,
    ensures
        a.eq_spec(&b),
{
}

/// Two ids with the same code are equal, whatever their titles.
pub proof fn lemma_id_eq_by_code(a: Id, b: Id)
    requires
        a@.code == b@.code,
    ensures
        a.eq_spec(&b),
{
}

/// A space, tab, line feed, vertical tab, form feed or carriage return.
pub open spec fn is_space(c: char) -> bool {
    c == ' ' || c == '\t' || c == '\n' || c == '\x0B' || c == '\x0C' || c == '\r'
}

/// Whether `c` is a space, tab, line break, vertical tab or form feed.
fn char_is_space(c: char) -> (r: bool)
    ensures
        r == is_space(c),
{
    c == ' ' || c == '\t' || c == '\n' || c == '\x0B' || c == '\x0C' || c == '\r'
}

/// `s` opens with an area range `a0-a9` and a space.
pub open spec fn opens_area(s: Seq<char>) -> bool {
    &&& s.len() >= 6
    &&& is_digit(s[0])
    &&& s.subrange(0, 5) == range_of(s[0])
    &&& is_space(s[5])
}

/// `s` opens with a category code `ac` and a space.
pub open spec fn opens_category(s: Seq<char>) -> bool {
    s.len() >= 3 && is_digit(s[0]) && is_digit(s[1]) && is_space(s[2])
}

/// `s` opens with an id code `ac.id` and a space; any character may separate the
/// two pairs of digits.
pub open spec fn opens_id(s: Seq<char>) -> bool {
    &&& s.len() >= 6
    &&& is_digit(s[0])
    &&& is_digit(s[1])
    &&& s[2] != '\n'
    &&& is_digit(s[3])
    &&& is_digit(s[4])
    &&& is_space(s[5])
}

/// Whether `s` looks like the name of an area directory: `a0-a9 ...`.
pub fn is_area(s: &str) -> (r: bool)
    ensures
        r == opens_area(s@),
{
    let n = s.unicode_len();
    if n < 6 {
        return false;
    }
    let c = s.get_char(0);
    let r = char_is_digit(c) && s.get_char(1) == '0' && s.get_char(2) == '-' && s.get_char(3) == c
        && s.get_char(4) == '9' && char_is_space(s.get_char(5));
    proof {
        if r {
            assert(s@.subrange(0, 5) =~= range_of(s@[0]));
        }
        if opens_area(s@) {
            assert(s@.subrange(0, 5)[1] == '0');
            assert(s@.subrange(0, 5)[2] == '-');
            assert(s@.subrange(0, 5)[3] == s@[0]);
            assert(s@.subrange(0, 5)[4] == '9');
        }
    }
    r
}

/// Whether `s` looks like the name of a category directory: `ac ...`.
pub fn is_category(s: &str) -> (r: bool)
    ensures
        r == opens_category(s@),
{
    let n = s.unicode_len();
    n >= 3 && char_is_digit(s.get_char(0)) && char_is_digit(s.get_char(1)) && char_is_space(
        s.get_char(2),
    )
}

/// Whether `s` looks like the name of an id directory: `ac.id ...`.
pub fn is_id(s: &str) -> (r: bool)
    ensures
        r == opens_id(s@),
{
    let n = s.unicode_len();
    n >= 6 && char_is_digit(s.get_char(0)) && char_is_digit(s.get_char(1)) && s.get_char(2) != '\n'
        && char_is_digit(s.get_char(3)) && char_is_digit(s.get_char(4)) && char_is_space(
        s.get_char(5),
    )
}

} // verus!
