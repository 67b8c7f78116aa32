//! Trackable activities: named leaves with a WBS code and an optional
//! default description, arranged in categories like files in directories.

use crate::entry::{lemma_split_nonempty, split_at_tabs, split_by, split_on};
use vstd::prelude::*;
use vstd::string::{StrSliceExecFns, StringExecFns};

verus! {

pub const BUILTIN_ACTIVITY_IDLE_NAME: &'static str = "idle";

pub const BUILTIN_ACTIVITY_IDLE_WBS: &'static str = "Idle";

#[derive(Debug, Clone, Copy, PartialEq, Eq, Structural)]
pub enum ParseActivityErr {
    MissingPath,
    NoNameInPath,
    MissingWbs,
}

#[derive(Debug, Clone)]
pub struct ActivityLeaf {
    pub name: String,
    pub wbs: String,
    pub default_description: Option<String>,
}

/// The text of an optional default description; empty where there is none.
pub open spec fn description_text(d: Option<String>) -> Seq<char> {
    match d {
        Some(x) => x@,
        None => Seq::empty(),
    }
}

/// The line of an activity definition: path, WBS and default description,
/// tab separated.
pub open spec fn leaf_line(path: Seq<char>, leaf: ActivityLeaf) -> Seq<char> {
    path + seq!['\t'] + leaf.wbs@ + seq!['\t'] + description_text(leaf.default_description)
}

fn append_fields(out: &mut String, leaf: &ActivityLeaf)
    ensures
        final(out)@ == leaf_line(old(out)@, *leaf),
{
    proof {
        reveal_strlit("\t");
        assert("\t"@ =~= seq!['\t']);
    }
    let ghost start = out@;
    out.append("\t");
    out.append(leaf.wbs.as_str());
    out.append("\t");
    match &leaf.default_description {
        Some(d) => out.append(d.as_str()),
        None => {},
    }
    proof {
        assert(out@ =~= leaf_line(start, *leaf));
    }
}

impl ActivityLeaf {
    /// The definition line of this leaf: name, WBS and default description.
    pub fn to_line(&self) -> (r: String)
        ensures
            r@ == leaf_line(self.name@, *self),
    {
        let mut out = self.name.clone();
        append_fields(&mut out, self);
        out
    }

    pub fn name(&self) -> (r: &str)
        ensures
            r@ == self.name@,
    {
        self.name.as_str()
    }

    pub fn wbs(&self) -> (r: &str)
        ensures
            r@ == self.wbs@,
    {
        self.wbs.as_str()
    }

    pub fn description(&self) -> (r: Option<&str>)
        ensures
            match self.default_description {
                Some(d) => r matches Some(x) && x@ == d@,
                None => r is None,
            },
    {
        match &self.default_description {
            Some(d) => Some(d.as_str()),
            None => None,
        }
    }
}

/// A leaf together with the categories above it.
#[derive(Debug, Clone)]
pub struct Activity {
    pub path: Vec<String>,
    pub leaf: ActivityLeaf,
}

/// The categories, each followed by `/`, then the leaf's name.
pub open spec fn path_text(path: Seq<Seq<char>>, name: Seq<char>) -> Seq<char>
    decreases path.len(),
{
    if path.len() == 0 {
        name
    } else {
        path[0] + seq!['/'] + path_text(path.drop_first(), name)
    }
}

/// What reading an activity line (`path\twbs\tdescription`) gives: the
/// categories, the leaf's name, its WBS and its default description.
pub open spec fn parse_activity_spec(line: Seq<char>) -> Result<(Seq<Seq<char>>, Seq<char>, Seq<char>, Option<Seq<char>>), ParseActivityErr> {
    let f = split_at_tabs(line);
    if f.len() < 1 {
        Err(ParseActivityErr::MissingPath)
    } else if f.len() < 2 {
        Err(ParseActivityErr::MissingWbs)
    } else {
        let parts = split_on(f[0], '/');
        let name = parts.last();
        if parts.len() < 1 || name.len() == 0 {
            Err(ParseActivityErr::NoNameInPath)
        } else {
            Ok(
                (
                    parts.drop_last(),
                    name,
                    f[1],
                    if f.len() > 2 && f[2].len() > 0 {
                        Some(f[2])
                    } else {
                        None
                    },
                ),
            )
        }
    }
}

impl Activity {
    /// The activity that is always there: `idle`, booked on `Idle`.
    pub fn builtin_idle() -> (r: Self)
        ensures
            r.path@.len() == 0,
            r.leaf.name@ == BUILTIN_ACTIVITY_IDLE_NAME@,
            r.leaf.wbs@ == BUILTIN_ACTIVITY_IDLE_WBS@,
            r.leaf.default_description is None,
    {
        Activity {
            path: Vec::new(),
            leaf: ActivityLeaf {
                name: BUILTIN_ACTIVITY_IDLE_NAME.to_owned(),
                wbs: BUILTIN_ACTIVITY_IDLE_WBS.to_owned(),
                default_description: None,
            },
        }
    }

    /// The categories and the name, joined with `/`.
    pub fn full_path(&self) -> (r: String)
        ensures
            r@ == path_text(self.path@.map_values(|c: String| c@), self.leaf.name@),
    {
        let ghost ps = self.path@.map_values(|c: String| c@);
        let mut out = String::new();
        let mut i: usize = 0;
        proof {
            assert(ps.subrange(0, ps.len() as int) =~= ps);
            assert(out@ + path_text(ps, self.leaf.name@) =~= path_text(ps, self.leaf.name@));
        }
        while i < self.path.len()
            invariant
                i <= self.path@.len(),
                ps == self.path@.map_values(|c: String| c@),
                out@ + path_text(ps.subrange(i as int, ps.len() as int), self.leaf.name@) == path_text(ps, self.leaf.name@),
            decreases self.path.len() - i,
        {
            let ghost rest = ps.subrange(i as int, ps.len() as int);
            proof {
                assert(ps.subrange(0, ps.len() as int) =~= ps);
                assert(rest[0] == self.path@[i as int]@);
                assert(rest.drop_first() =~= ps.subrange(i + 1, ps.len() as int));
            }
            let ghost before = out@;
            out.append(self.path[i].as_str());
            out.append("/");
            proof {
                reveal_strlit("/");
                assert("/"@ =~= seq!['/']);
                assert(path_text(rest, self.leaf.name@) == rest[0] + seq!['/'] + path_text(rest.drop_first(), self.leaf.name@));
                assert(out@ =~= before + rest[0] + seq!['/']);
                assert(out@ + path_text(rest.drop_first(), self.leaf.name@) =~= before + path_text(rest, self.leaf.name@));
            }
            i += 1;
        }
        out.append(self.leaf.name.as_str());
        proof {
            assert(ps.subrange(i as int, ps.len() as int) =~= Seq::<Seq<char>>::empty());
        }
        out
    }

    /// An activity right at the top, outside any category.
    pub fn from_leaf(leaf: ActivityLeaf) -> (r: Self)
        ensures
            r.path@.len() == 0,
            r.leaf == leaf,
    {
        Activity { path: Vec::new(), leaf }
    }

    /// The definition line of this activity: full path, WBS and default
    /// description; `parse_line` reads it back.
    pub fn to_line(&self) -> (r: String)
        ensures
            r@ == leaf_line(path_text(self.path@.map_values(|c: String| c@), self.leaf.name@), self.leaf),
    {
        let mut out = self.full_path();
        append_fields(&mut out, &self.leaf);
        out
    }

    pub fn leaf_name(&self) -> (r: &str)
        ensures
            r@ == self.leaf.name@,
    {
        self.leaf.name()
    }

    pub fn wbs(&self) -> (r: &str)
        ensures
            r@ == self.leaf.wbs@,
    {
        self.leaf.wbs()
    }

    pub fn description(&self) -> (r: Option<&str>)
        ensures
            match self.leaf.default_description {
                Some(d) => r matches Some(x) && x@ == d@,
                None => r is None,
            },
    {
        self.leaf.description()
    }

    /// Reads an activity line: `path\twbs[\tdescription]`, where the path
    /// is categories and a name separated by `/`. An empty description
    /// counts as none.
    pub fn parse_line(input: &str) -> (r: Result<Self, ParseActivityErr>)
        ensures
            match parse_activity_spec(input@) {
                Ok(v) => r matches Ok(a) && a.path@.map_values(|c: String| c@) == v.0 && a.leaf.name@ == v.1
                    && a.leaf.wbs@ == v.2 && match v.3 {
                    Some(d) => a.leaf.default_description matches Some(x) && x@ == d,
                    None => a.leaf.default_description is None,
                },
                Err(e) => r == Err::<Activity, ParseActivityErr>(e),
            },
    {
        let fields = split_by(input, '\t');
        let ghost f = split_at_tabs(input@);
        proof {
            lemma_split_nonempty(input@, '\t');
            assert(fields@.len() == f.len());
            assert forall|i: int| 0 <= i < f.len() implies fields@[i]@ == f[i] by {
                assert(fields@.map_values(|s: String| s@)[i] == fields@[i]@);
            }
        }
        if fields.len() < 1 {
            return Err(ParseActivityErr::MissingPath);
        }
        if fields.len() < 2 {
            return Err(ParseActivityErr::MissingWbs);
        }
        let wbs = fields[1].clone();
        let default_description = if fields.len() > 2 && fields[2].as_str().unicode_len() > 0 {
            Some(fields[2].clone())
        } else {
            None
        };
        let mut path = split_by(fields[0].as_str(), '/');
        let ghost parts = split_on(f[0], '/');
        let ghost raw = path@;
        proof {
            lemma_split_nonempty(f[0], '/');
            assert(raw.map_values(|c: String| c@) == parts);
            assert(raw.len() == parts.len());
        }
        let name = match path.pop() {
            Some(n) => n,
            None => {
                return Err(ParseActivityErr::NoNameInPath);
            },
        };
        proof {
            assert(name == raw.last());
            assert(raw.map_values(|c: String| c@)[raw.len() - 1] == raw[raw.len() - 1]@);
            assert(parts.last() == name@);
            assert(path@.map_values(|c: String| c@) =~= parts.drop_last());
        }
        if name.as_str().unicode_len() == 0 {
            return Err(ParseActivityErr::NoNameInPath);
        }
        let leaf = ActivityLeaf { name, wbs, default_description };
        Ok(Activity { path, leaf })
    }
}

/// Categories and leaves below one category.
#[derive(Debug)]
pub struct ActivityCategory {
    pub branches: Vec<(String, ActivityCategory)>,
    pub leafs: Vec<ActivityLeaf>,
}

/// An item of the hierarchy, borrowed.
#[derive(Debug)]
pub enum ActivityItemRef<'a> {
    Leaf(&'a ActivityLeaf),
    Category(&'a ActivityCategory),
}

/// An item of the hierarchy as a value.
pub enum FoundItem {
    Leaf(ActivityLeaf),
    Category(ActivityCategory),
}

impl<'a> ActivityItemRef<'a> {
    pub open spec fn item(self) -> FoundItem {
        match self {
            ActivityItemRef::Leaf(l) => FoundItem::Leaf(*l),
            ActivityItemRef::Category(c) => FoundItem::Category(*c),
        }
    }
}

/// Why a path names no item: the first `depth` names lead to a leaf, which
/// has nothing below it, or the name at `depth` is not found.
#[derive(Debug, Clone, Copy, PartialEq, Eq, Structural)]
pub enum LookupError {
    NotACategory { depth: usize },
    NoSuchItem { depth: usize },
}

/// The index of the first branch with the given name, from `from` on.
pub open spec fn find_branch(bs: Seq<(String, ActivityCategory)>, name: Seq<char>, from: int) -> Option<int>
    decreases bs.len() - from,
{
    if from < 0 || from >= bs.len() {
        None
    } else if bs[from].0@ == name {
        Some(from)
    } else {
        find_branch(bs, name, from + 1)
    }
}

/// The index of the first leaf with the given name, from `from` on.
pub open spec fn find_leaf(ls: Seq<ActivityLeaf>, name: Seq<char>, from: int) -> Option<int>
    decreases ls.len() - from,
{
    if from < 0 || from >= ls.len() {
        None
    } else if ls[from].name@ == name {
        Some(from)
    } else {
        find_leaf(ls, name, from + 1)
    }
}

proof fn lemma_find_branch(bs: Seq<(String, ActivityCategory)>, name: Seq<char>, from: int)
    ensures
        match find_branch(bs, name, from) {
            Some(i) => from <= i < bs.len() && bs[i].0@ == name,
            None => true,
        },
    decreases bs.len() - from,
{
    if 0 <= from < bs.len() && bs[from].0@ != name {
        lemma_find_branch(bs, name, from + 1);
    }
}

proof fn lemma_find_leaf(ls: Seq<ActivityLeaf>, name: Seq<char>, from: int)
    ensures
        match find_leaf(ls, name, from) {
            Some(i) => from <= i < ls.len() && ls[i].name@ == name,
            None => true,
        },
    decreases ls.len() - from,
{
    if 0 <= from < ls.len() && ls[from].name@ != name {
        lemma_find_leaf(ls, name, from + 1);
    }
}

/// The item with the given name right below a category: a category comes
/// before a leaf of the same name.
pub open spec fn child(c: ActivityCategory, name: Seq<char>) -> Option<FoundItem> {
    match find_branch(c.branches@, name, 0) {
        Some(i) => Some(FoundItem::Category(c.branches@[i].1)),
        None => match find_leaf(c.leafs@, name, 0) {
            Some(i) => Some(FoundItem::Leaf(c.leafs@[i])),
            None => None,
        },
    }
}

/// Following the names from index `i` on, starting at `item`.
pub open spec fn walk(item: FoundItem, path: Seq<Seq<char>>, i: int) -> Result<FoundItem, LookupError>
    decreases path.len() - i,
{
    if i < 0 || i >= path.len() {
        Ok(item)
    } else {
        match item {
            FoundItem::Leaf(_) => Err(LookupError::NotACategory { depth: i as usize }),
            FoundItem::Category(c) => match child(c, path[i]) {
                None => Err(LookupError::NoSuchItem { depth: i as usize }),
                Some(x) => walk(x, path, i + 1),
            },
        }
    }
}

impl ActivityCategory {
    fn branch_index(&self, name: &String) -> (r: Option<usize>)
        ensures
            match r {
                Some(k) => find_branch(self.branches@, name@, 0) == Some(k as int) && k < self.branches@.len(),
                None => find_branch(self.branches@, name@, 0) is None,
            },
    {
        proof {
            lemma_find_branch(self.branches@, name@, 0);
        }
        let mut i: usize = 0;
        while i < self.branches.len()
            invariant
                i <= self.branches@.len(),
                find_branch(self.branches@, name@, 0) == find_branch(self.branches@, name@, i as int),
            decreases self.branches.len() - i,
        {
            if self.branches[i].0 == *name {
                return Some(i);
            }
            i += 1;
        }
        None
    }

    fn leaf_index(&self, name: &String) -> (r: Option<usize>)
        ensures
            match r {
                Some(k) => find_leaf(self.leafs@, name@, 0) == Some(k as int) && k < self.leafs@.len(),
                None => find_leaf(self.leafs@, name@, 0) is None,
            },
    {
        proof {
            lemma_find_leaf(self.leafs@, name@, 0);
        }
        let mut i: usize = 0;
        while i < self.leafs.len()
            invariant
                i <= self.leafs@.len(),
                find_leaf(self.leafs@, name@, 0) == find_leaf(self.leafs@, name@, i as int),
            decreases self.leafs.len() - i,
        {
            if self.leafs[i].name == *name {
                return Some(i);
            }
            i += 1;
        }
        None
    }

    /// The item that a path of names leads to from this category.
    pub fn get_item_at<'a>(&'a self, path: &[String]) -> (r: Result<ActivityItemRef<'a>, LookupError>)
        ensures
            match walk(FoundItem::Category(*self), path@.map_values(|s: String| s@), 0) {
                Ok(item) => r matches Ok(x) && x.item() == item,
                Err(e) => r == Err::<ActivityItemRef<'a>, LookupError>(e),
            },
    {
        let ghost names = path@.map_values(|s: String| s@);
        let mut out: ActivityItemRef<'a> = ActivityItemRef::Category(self);
        let mut i: usize = 0;
        while i < path.len()
            invariant
                i <= path@.len(),
                names == path@.map_values(|s: String| s@),
                walk(FoundItem::Category(*self), names, 0) == walk(out.item(), names, i as int),
            decreases path.len() - i,
        {
            proof {
                assert(names[i as int] == path@[i as int]@);
            }
            let category = match out {
                ActivityItemRef::Leaf(_) => {
                    return Err(LookupError::NotACategory { depth: i });
                },
                ActivityItemRef::Category(category) => category,
            };
            let part = &path[i];
            proof {
                lemma_find_branch(category.branches@, part@, 0);
                lemma_find_leaf(category.leafs@, part@, 0);
            }
            out = match category.branch_index(part) {
                Some(b) => {
                    let next = ActivityItemRef::Category(&category.branches[b].1);
                    proof {
                        assert(find_branch(category.branches@, part@, 0) == Some(b as int));
                        assert(next.item() == FoundItem::Category(category.branches@[b as int].1));
                    }
                    next
                },
                None => match category.leaf_index(part) {
                    Some(l) => {
                        let next = ActivityItemRef::Leaf(&category.leafs[l]);
                        proof {
                            assert(find_leaf(category.leafs@, part@, 0) == Some(l as int));
                            assert(next.item() == FoundItem::Leaf(category.leafs@[l as int]));
                        }
                        next
                    },
                    None => {
                        return Err(LookupError::NoSuchItem { depth: i });
                    },
                },
            };
            proof {
                assert(names[i as int] == part@);
                assert(child(*category, part@) == Some(out.item()));
                assert(walk(FoundItem::Category(*category), names, i as int) == walk(out.item(), names, i + 1));
            }
            i += 1;
        }
        Ok(out)
    }
}

/// One row of an activity listing.
pub enum PrintableActivityItem<'a> {
    CategoryName(&'a str),
    ActivityLeaf(&'a ActivityLeaf),
    Activity(&'a Activity),
}

impl<'a> PrintableActivityItem<'a> {
    /// A category's name followed by `/`, a leaf's name, or an activity's
    /// full path.
    pub fn display_name(&self) -> (r: String)
        ensures
            r@ == match *self {
                PrintableActivityItem::CategoryName(name) => name@ + seq!['/'],
                PrintableActivityItem::ActivityLeaf(leaf) => leaf.name@,
                PrintableActivityItem::Activity(a) => path_text(a.path@.map_values(|c: String| c@), a.leaf.name@),
            },
    {
        match self {
            PrintableActivityItem::CategoryName(name) => {
                let mut out = String::new();
                out.append(name);
                out.append("/");
                proof {
                    reveal_strlit("/");
                    assert("/"@ =~= seq!['/']);
                    assert(out@ =~= name@ + seq!['/']);
                }
                out
            },
            PrintableActivityItem::ActivityLeaf(leaf) => leaf.name.clone(),
            PrintableActivityItem::Activity(activity) => activity.full_path(),
        }
    }

    /// The machine-readable line of this row: a category's name with `/`
    /// and two empty fields, or the definition line of a leaf or activity.
    pub fn to_line(&self) -> (r: String)
        ensures
            r@ == match *self {
                PrintableActivityItem::CategoryName(name) => name@ + seq!['/', '\t', '\t'],
                PrintableActivityItem::ActivityLeaf(leaf) => leaf_line(leaf.name@, *leaf),
                PrintableActivityItem::Activity(a) => leaf_line(path_text(a.path@.map_values(|c: String| c@), a.leaf.name@), a.leaf),
            },
    {
        match self {
            PrintableActivityItem::CategoryName(name) => {
                let mut out = String::new();
                out.append(name);
                out.append("/\t\t");
                proof {
                    reveal_strlit("/\t\t");
                    assert("/\t\t"@ =~= seq!['/', '\t', '\t']);
                    assert(out@ =~= name@ + seq!['/', '\t', '\t']);
                }
                out
            },
            PrintableActivityItem::ActivityLeaf(leaf) => leaf.to_line(),
            PrintableActivityItem::Activity(activity) => activity.to_line(),
        }
    }

    /// The WBS of a leaf or activity; `None` for a category.
    pub fn wbs(&self) -> (r: Option<&str>)
        ensures
            match *self {
                PrintableActivityItem::CategoryName(_) => r is None,
                PrintableActivityItem::ActivityLeaf(leaf) => r matches Some(w) && w@ == leaf.wbs@,
                PrintableActivityItem::Activity(a) => r matches Some(w) && w@ == a.leaf.wbs@,
            },
    {
        match self {
            PrintableActivityItem::CategoryName(_) => None,
            PrintableActivityItem::ActivityLeaf(leaf) => Some(leaf.wbs()),
            PrintableActivityItem::Activity(activity) => Some(activity.wbs()),
        }
    }

    /// The default description of a leaf or activity; `None` for a category
    /// and where there is none.
    pub fn description(&self) -> (r: Option<&str>)
        ensures
            match *self {
                PrintableActivityItem::CategoryName(_) => r is None,
                PrintableActivityItem::ActivityLeaf(leaf) => match leaf.default_description {
                    Some(d) => r matches Some(x) && x@ == d@,
                    None => r is None,
                },
                PrintableActivityItem::Activity(a) => match a.leaf.default_description {
                    Some(d) => r matches Some(x) && x@ == d@,
                    None => r is None,
                },
            },
    {
        match self {
            PrintableActivityItem::CategoryName(_) => None,
            PrintableActivityItem::ActivityLeaf(leaf) => leaf.description(),
            PrintableActivityItem::Activity(activity) => activity.description(),
        }
    }
}

} // verus!
