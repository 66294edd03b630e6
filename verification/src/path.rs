//! Paths to files, as the components they are made of.

use crate::order::{lemma_text_chain, lemma_text_total, Ranked};
use crate::text::{precedes, same, text_before};
use vstd::prelude::*;

verus! {

/// One component of a path, in the order in which the kinds sort.
#[derive(Debug)]
pub enum Part {
    /// A drive or a share, where the platform has them.
    Prefix(String),
    /// The root directory.
    Root,
    /// A leading `.`.
    Current,
    /// `..`.
    Parent,
    /// A name.
    Normal(String),
}

/// A path: how it is written, and what it is made of.
#[derive(Debug)]
pub struct FilePath {
    pub shown: String,
    pub parts: Vec<Part>,
}

/// The mathematical model of a [`Part`].
pub ghost enum PartView {
    Prefix(Seq<char>),
    Root,
    Current,
    Parent,
    Normal(Seq<char>),
}

/// The mathematical model of a [`FilePath`].
pub ghost struct PathView {
    pub shown: Seq<char>,
    pub parts: Seq<PartView>,
}

impl View for Part {
    type V = PartView;

    open spec fn view(&self) -> PartView {
        match *self {
            Part::Prefix(name) => PartView::Prefix(name@),
            Part::Root => PartView::Root,
            Part::Current => PartView::Current,
            Part::Parent => PartView::Parent,
            Part::Normal(name) => PartView::Normal(name@),
        }
    }
}

/// The models of some components.
pub open spec fn parts_view(parts: Seq<Part>) -> Seq<PartView> {
    parts.map_values(|part: Part| part@)
}

impl View for FilePath {
    type V = PathView;

    open spec fn view(&self) -> PathView {
        PathView { shown: self.shown@, parts: parts_view(self.parts@) }
    }
}

pub open spec fn part_rank(part: PartView) -> int {
    match part {
        PartView::Prefix(_) => 0,
        PartView::Root => 1,
        PartView::Current => 2,
        PartView::Parent => 3,
        PartView::Normal(_) => 4,
    }
}

pub open spec fn part_name(part: PartView) -> Seq<char> {
    match part {
        PartView::Prefix(name) => name,
        PartView::Normal(name) => name,
        _ => Seq::empty(),
    }
}

/// Components sort by kind, and those of one kind by name.
pub open spec fn part_before(a: PartView, b: PartView) -> bool {
    ||| part_rank(a) < part_rank(b)
    ||| part_rank(a) == part_rank(b) && text_before(part_name(a), part_name(b))
}

/// Paths sort by their first component in which they differ.
pub open spec fn path_before(a: Seq<PartView>, b: Seq<PartView>) -> bool
    decreases a.len(),
{
    if b.len() == 0 {
        false
    } else if a.len() == 0 {
        true
    } else {
        ||| part_before(a[0], b[0])
        ||| a[0] == b[0] && path_before(a.drop_first(), b.drop_first())
    }
}

/// The name of what a path leads to, if it ends in a name.
pub open spec fn file_name(parts: Seq<PartView>) -> Option<Seq<char>> {
    if parts.len() > 0 && parts.last() is Normal {
        Some(part_name(parts.last()))
    } else {
        None
    }
}

/// The path without its last component, unless it ends in a root or is empty.
pub open spec fn parent(parts: Seq<PartView>) -> Option<Seq<PartView>> {
    if parts.len() == 0 || parts.last() is Root || parts.last() is Prefix {
        None
    } else {
        Some(parts.drop_last())
    }
}

/// True when a path lies at or under a directory.
pub open spec fn lies_under(parts: Seq<PartView>, directory: Seq<PartView>) -> bool {
    directory.is_prefix_of(parts)
}

proof fn lemma_part_total(a: PartView, b: PartView)
    ensures
        part_before(a, b) || part_before(b, a) || a == b,
        !(part_before(a, b) && part_before(b, a)),
        a == b ==> !part_before(a, b),
{
    lemma_text_total(part_name(a), part_name(b));
}

proof fn lemma_part_chain(a: PartView, b: PartView, c: PartView)
    requires
        part_before(a, b),
        part_before(b, c),
    ensures
        part_before(a, c),
{
    if part_rank(a) == part_rank(b) && part_rank(b) == part_rank(c) {
        lemma_text_chain(part_name(a), part_name(b), part_name(c));
    }
}

/// Of two paths one stands before the other, unless they are the same.
pub proof fn lemma_path_total(a: Seq<PartView>, b: Seq<PartView>)
    ensures
        path_before(a, b) || path_before(b, a) || a == b,
        !(path_before(a, b) && path_before(b, a)),
        a == b ==> !path_before(a, b),
    decreases a.len(),
{
    if a.len() > 0 && b.len() > 0 {
        lemma_part_total(a[0], b[0]);
        lemma_path_total(a.drop_first(), b.drop_first());
        if a[0] == b[0] && a.drop_first() == b.drop_first() {
            assert(a =~= seq![a[0]] + a.drop_first());
            assert(b =~= seq![b[0]] + b.drop_first());
        }
    } else if a.len() == 0 && b.len() == 0 {
        assert(a =~= b);
    }
}

/// The order of paths carries over.
pub proof fn lemma_path_chain(a: Seq<PartView>, b: Seq<PartView>, c: Seq<PartView>)
    requires
        path_before(a, b),
        path_before(b, c),
    ensures
        path_before(a, c),
    decreases a.len(),
{
    if a.len() > 0 {
        if part_before(a[0], b[0]) && part_before(b[0], c[0]) {
            lemma_part_chain(a[0], b[0], c[0]);
        } else if a[0] == b[0] && b[0] == c[0] {
            if part_before(a[0], a[0]) {
                lemma_part_total(a[0], a[0]);
            }
            lemma_path_chain(a.drop_first(), b.drop_first(), c.drop_first());
        }
    }
}

impl Part {
    fn rank(&self) -> (r: u8)
        ensures
            r == part_rank(self@),
    {
        match self {
            Part::Prefix(_) => 0,
            Part::Root => 1,
            Part::Current => 2,
            Part::Parent => 3,
            Part::Normal(_) => 4,
        }
    }

    fn name(&self) -> (r: &str)
        ensures
            r@ == part_name(self@),
    {
        match self {
            Part::Prefix(name) => name.as_str(),
            Part::Normal(name) => name.as_str(),
            _ => {
                proof {
                    reveal_strlit("");
                }
                assert(""@ =~= Seq::<char>::empty());
                ""
            },
        }
    }

    fn before(&self, other: &Part) -> (r: bool)
        ensures
            r == part_before(self@, other@),
    {
        self.rank() < other.rank() || (self.rank() == other.rank() && precedes(
            self.name(),
            other.name(),
        ))
    }

    fn is(&self, other: &Part) -> (r: bool)
        ensures
            r == (self@ == other@),
    {
        self.rank() == other.rank() && same(self.name(), other.name())
    }
}

impl Clone for Part {
    fn clone(&self) -> (r: Part)
        ensures
            r@ == self@,
    {
        match self {
            Part::Prefix(name) => Part::Prefix(name.clone()),
            Part::Root => Part::Root,
            Part::Current => Part::Current,
            Part::Parent => Part::Parent,
            Part::Normal(name) => Part::Normal(name.clone()),
        }
    }
}

/// Some components again.
pub fn copy_parts(parts: &[Part]) -> (r: Vec<Part>)
    ensures
        parts_view(r@) == parts_view(parts@),
{
    let mut r: Vec<Part> = Vec::new();
    for i in 0..parts.len()
        invariant
            r@.len() == i,
            forall|j: int| 0 <= j < i ==> (#[trigger] r@[j])@ == parts@[j]@,
    {
        r.push(parts[i].clone());
    }
    assert(parts_view(r@) =~= parts_view(parts@));
    r
}

/// Whether some components are the same as others.
pub fn same_parts(a: &[Part], b: &[Part]) -> (r: bool)
    ensures
        r == (parts_view(a@) == parts_view(b@)),
{
    if a.len() != b.len() {
        assert(parts_view(a@).len() != parts_view(b@).len());
        return false;
    }
    for i in 0..a.len()
        invariant
            a@.len() == b@.len(),
            forall|j: int| 0 <= j < i ==> (#[trigger] a@[j])@ == b@[j]@,
    {
        if !a[i].is(&b[i]) {
            assert(parts_view(a@)[i as int] != parts_view(b@)[i as int]);
            return false;
        }
    }
    assert(parts_view(a@) =~= parts_view(b@));
    true
}

impl Clone for FilePath {
    fn clone(&self) -> (r: FilePath)
        ensures
            r@ == self@,
    {
        FilePath { shown: self.shown.clone(), parts: copy_parts(self.parts.as_slice()) }
    }
}

impl FilePath {
    /// The name of what the path leads to, if it ends in a name.
    pub fn file_name(&self) -> (r: Option<&str>)
        ensures
            match r {
                Some(name) => file_name(self@.parts) == Some(name@),
                None => file_name(self@.parts) is None,
            },
    {
        let n = self.parts.len();
        if n == 0 {
            return None;
        }
        assert(self@.parts.last() == self.parts@[n - 1]@);
        match &self.parts[n - 1] {
            Part::Normal(name) => Some(name.as_str()),
            _ => None,
        }
    }

    /// The components of the directory that holds the path, if one does.
    pub fn parent(&self) -> (r: Option<&[Part]>)
        ensures
            match r {
                Some(parts) => parent(self@.parts) == Some(parts_view(parts@)),
                None => parent(self@.parts) is None,
            },
    {
        let n = self.parts.len();
        if n == 0 {
            return None;
        }
        assert(self@.parts.last() == self.parts@[n - 1]@);
        match &self.parts[n - 1] {
            Part::Root => None,
            Part::Prefix(_) => None,
            _ => {
                let parts = vstd::slice::slice_subrange(self.parts.as_slice(), 0, n - 1);
                assert(parts_view(parts@) =~= self@.parts.drop_last());
                Some(parts)
            },
        }
    }

    /// Whether the path lies at or under a directory.
    pub fn is_under(&self, directory: &[Part]) -> (r: bool)
        ensures
            r == lies_under(self@.parts, parts_view(directory@)),
    {
        let n = directory.len();
        if n > self.parts.len() {
            return false;
        }
        let head = vstd::slice::slice_subrange(self.parts.as_slice(), 0, n);
        assert(parts_view(head@) =~= self@.parts.subrange(0, n as int));
        same_parts(directory, head)
    }

    /// Whether the path stands before another.
    pub fn before(&self, other: &FilePath) -> (r: bool)
        ensures
            r == path_before(self@.parts, other@.parts),
    {
        let a = &self.parts;
        let b = &other.parts;
        let ghost x = self@.parts;
        let ghost y = other@.parts;
        let mut i: usize = 0;
        assert(x.skip(0) =~= x);
        assert(y.skip(0) =~= y);
        while i < a.len() && i < b.len()
            invariant
                x == parts_view(a@),
                y == parts_view(b@),
                x == self@.parts,
                y == other@.parts,
                i <= x.len(),
                i <= y.len(),
                path_before(x, y) == path_before(x.skip(i as int), y.skip(i as int)),
            decreases x.len() - i,
        {
            proof {
                lemma_part_total(x[i as int], y[i as int]);
            }
            if a[i].before(&b[i]) {
                return true;
            }
            if !a[i].is(&b[i]) {
                return false;
            }
            assert(x.skip(i as int).drop_first() =~= x.skip(i + 1));
            assert(y.skip(i as int).drop_first() =~= y.skip(i + 1));
            i = i + 1;
        }
        i < b.len()
    }
}

/// Paths are ordered by their components.
impl Ranked for FilePath {
    open spec fn ranked(a: PathView, b: PathView) -> bool {
        !path_before(b.parts, a.parts)
    }

    proof fn lemma_total(a: PathView, b: PathView) {
        lemma_path_total(a.parts, b.parts);
    }

    proof fn lemma_chain(a: PathView, b: PathView, c: PathView) {
        lemma_path_total(a.parts, b.parts);
        lemma_path_total(b.parts, c.parts);
        lemma_path_total(a.parts, c.parts);
        if path_before(a.parts, b.parts) && path_before(b.parts, c.parts) {
            lemma_path_chain(a.parts, b.parts, c.parts);
        }
    }

    fn may_precede(&self, other: &Self) -> (r: bool) {
        !other.before(self)
    }
}

} // verus!
