//! Finding the code to check, and refusing politely when there is none.

use crate::order::{arrange, arranged, views, Ranked};
use crate::path::{file_name, FilePath, PathView};
use crate::rules::{attributed, has_attribute};
use crate::syntax::{nodes, parse, parsed, trees, Node, Sort, Tree};
use crate::text::{
    begins, chars, deep, ends, ends_with, lines, same, starts_with, text_lines, trim, trimmed,
};
use vstd::prelude::*;

verus! {

/// Why a path cannot be checked. Each of these is a message to a person, so
/// each says what was looked for and where.
#[derive(Debug)]
pub enum NotStylus {
    /// The path does not exist.
    Missing(FilePath),
    /// A Rust crate, but nothing in it depends on the stylus-sdk.
    NoSdkDependency(FilePath),
    /// No Rust source at all under the path.
    NoRustSource(FilePath),
}

/// The mathematical model of a [`NotStylus`].
pub ghost enum RefusalView {
    Missing(PathView),
    NoSdkDependency(PathView),
    NoRustSource(PathView),
}

impl View for NotStylus {
    type V = RefusalView;

    open spec fn view(&self) -> RefusalView {
        match *self {
            NotStylus::Missing(path) => RefusalView::Missing(path@),
            NotStylus::NoSdkDependency(path) => RefusalView::NoSdkDependency(path@),
            NotStylus::NoRustSource(path) => RefusalView::NoRustSource(path@),
        }
    }
}

impl RefusalView {
    /// What a person is told.
    pub open spec fn told(self) -> Seq<char> {
        match self {
            RefusalView::Missing(path) => "there is nothing at "@ + path.shown,
            RefusalView::NoSdkDependency(path) => "no crate under "@ + path.shown
                + " depends on stylus-sdk, so there are no Stylus contracts here.\nThis checker only understands stylus-sdk code; for plain Rust use clippy, and for Solidity use slither."@,
            RefusalView::NoRustSource(path) => "no Rust source files under "@ + path.shown,
        }
    }
}

impl NotStylus {
    /// What a person is told.
    pub fn message(&self) -> (r: String)
        ensures
            r@ == self@.told(),
    {
        match self {
            NotStylus::Missing(path) => {
                let mut out = "there is nothing at ".to_owned();
                out.append(path.shown.as_str());
                out
            },
            NotStylus::NoSdkDependency(path) => {
                let mut out = "no crate under ".to_owned();
                out.append(path.shown.as_str());
                out.append(
                    " depends on stylus-sdk, so there are no Stylus contracts here.\nThis checker only understands stylus-sdk code; for plain Rust use clippy, and for Solidity use slither.",
                );
                out
            },
            NotStylus::NoRustSource(path) => {
                let mut out = "no Rust source files under ".to_owned();
                out.append(path.shown.as_str());
                out
            },
        }
    }
}

/// Something found under a path, with its text, or why it could not be read.
#[derive(Debug)]
pub struct Entry {
    pub path: FilePath,
    pub text: Result<String, String>,
}

/// The mathematical model of an [`Entry`].
pub ghost struct EntryView {
    pub path: PathView,
    pub text: Result<Seq<char>, Seq<char>>,
}

impl View for Entry {
    type V = EntryView;

    open spec fn view(&self) -> EntryView {
        EntryView {
            path: self.path@,
            text: match self.text {
                Ok(text) => Ok(text@),
                Err(reason) => Err(reason@),
            },
        }
    }
}

/// Entries are ordered by their paths.
impl Ranked for Entry {
    open spec fn ranked(a: EntryView, b: EntryView) -> bool {
        FilePath::ranked(a.path, b.path)
    }

    proof fn lemma_total(a: EntryView, b: EntryView) {
        FilePath::lemma_total(a.path, b.path);
    }

    proof fn lemma_chain(a: EntryView, b: EntryView, c: EntryView) {
        FilePath::lemma_chain(a.path, b.path, c.path);
    }

    fn may_precede(&self, other: &Self) -> (r: bool) {
        self.path.may_precede(&other.path)
    }
}

/// The Rust files to check, once the path has been confirmed to hold Stylus code.
#[derive(Debug)]
pub struct Sources {
    pub files: Vec<Entry>,
    /// Manifests that pulled in the stylus-sdk, for reporting.
    pub manifests: Vec<Entry>,
}

/// The mathematical model of [`Sources`].
pub ghost struct SourcesView {
    pub files: Seq<EntryView>,
    pub manifests: Seq<EntryView>,
}

impl View for Sources {
    type V = SourcesView;

    open spec fn view(&self) -> SourcesView {
        SourcesView { files: views(self.files@), manifests: views(self.manifests@) }
    }
}

/// True for the name of a directory whose contents are never the user's own
/// contract code.
pub open spec fn ignored(path: PathView) -> bool {
    file_name(path.parts) matches Some(name) && (name == "target"@ || name == ".git"@ || name
        == "node_modules"@ || name == ".cargo"@ || name == "vendor"@)
}

/// True for a path to a manifest.
pub open spec fn is_manifest(path: PathView) -> bool {
    file_name(path.parts) == Some("Cargo.toml"@)
}

/// True for a path to a Rust file: a name with `.rs` behind something.
pub open spec fn is_source(path: PathView) -> bool {
    file_name(path.parts) matches Some(name) && ends(name, ".rs"@) && name.len() > ".rs"@.len()
}

/// True for a line of a manifest that depends on the stylus-sdk.
pub open spec fn names_the_sdk(line: Seq<char>) -> bool {
    let text = trimmed(line);
    !begins(text, "#"@) && (begins(text, "stylus-sdk"@) || begins(text, "stylus_sdk"@))
}

/// True when a manifest depends on the stylus-sdk.
pub open spec fn depends_on_the_sdk(manifest: Seq<char>) -> bool {
    exists|i: int|
        0 <= i < lines(manifest).len() && names_the_sdk(#[trigger] lines(manifest)[i])
}

/// True for a node that makes its file a contract: one of the two macros, or a
/// public impl block.
pub open spec fn marks_a_contract(node: Tree) -> bool {
    ||| node.sort() == Sort::Macro && (node.tail() == Some("sol_storage"@) || node.tail() == Some(
        "sol_interface"@,
    ))
    ||| node.sort() == Sort::Implementation && attributed(node, "public"@)
}

/// True when a file declares a Stylus contract.
pub open spec fn is_a_contract(file: Tree) -> bool {
    exists|i: int| 0 <= i < nodes(file).len() && marks_a_contract(#[trigger] nodes(file)[i])
}

/// The Rust files among what was found.
pub open spec fn sources_among(found: Seq<EntryView>) -> Seq<EntryView> {
    found.filter(|e: EntryView| !is_manifest(e.path) && is_source(e.path))
}

/// The manifests among what was found that depend on the stylus-sdk.
pub open spec fn manifests_among(found: Seq<EntryView>) -> Seq<EntryView> {
    found.filter(|e: EntryView| is_manifest(e.path) && declares(e))
}

/// True for an entry that can be read and depends on the stylus-sdk.
pub open spec fn declares(e: EntryView) -> bool {
    e.text matches Ok(text) && depends_on_the_sdk(text)
}

/// True for an entry that can be read and parsed and declares a contract.
pub open spec fn holds_a_contract(e: EntryView) -> bool {
    e.text matches Ok(text) && (parsed(text) matches Ok(file) && is_a_contract(file))
}

/// True when what was found is Stylus code: a manifest depends on the SDK, or a
/// file says so itself.
pub open spec fn is_stylus(found: Seq<EntryView>) -> bool {
    ||| manifests_among(found).len() > 0
    ||| exists|i: int|
        0 <= i < sources_among(found).len() && holds_a_contract(#[trigger] sources_among(found)[i])
}

/// Why what was found cannot be checked, if it cannot.
pub open spec fn refusal(root: PathView, found: Option<Seq<EntryView>>) -> Option<RefusalView> {
    match found {
        None => Some(RefusalView::Missing(root)),
        Some(entries) => if sources_among(entries).len() == 0 {
            Some(RefusalView::NoRustSource(root))
        } else if !is_stylus(entries) {
            Some(RefusalView::NoSdkDependency(root))
        } else {
            None
        },
    }
}

/// The model of what was found at a path, if there is anything.
pub open spec fn found_view(found: Option<Vec<Entry>>) -> Option<Seq<EntryView>> {
    match found {
        Some(entries) => Some(views(entries@)),
        None => None,
    }
}

/// Collects the Rust sources among what was found under `root`, provided this
/// really is Stylus code. Nothing is found at a path that does not exist.
///
/// The dependency check exists so that pointing the tool at an unrelated Rust
/// project fails with a sentence rather than with a page of findings from rules
/// that were never meant to apply to it.
///
/// # Errors
/// Returns [`NotStylus`] when the path is missing, holds no Rust, or holds Rust
/// that never depends on the stylus-sdk.
pub fn collect(root: &FilePath, found: Option<Vec<Entry>>) -> (r: Result<Sources, NotStylus>)
    ensures
        match r {
            Ok(sources) => {
                &&& refusal(root@, found_view(found)) is None
                &&& arranged::<Entry>(
                    sources_among(found_view(found).unwrap()),
                    sources@.files,
                )
                &&& arranged::<Entry>(
                    manifests_among(found_view(found).unwrap()),
                    sources@.manifests,
                )
            },
            Err(why) => refusal(root@, found_view(found)) == Some(why@),
        },
{
    let entries = match found {
        Some(entries) => entries,
        None => {
            return Err(NotStylus::Missing(root.clone()));
        },
    };
    let ghost all = views(entries@);
    let ghost source = |e: EntryView| !is_manifest(e.path) && is_source(e.path);
    let ghost manifest = |e: EntryView| is_manifest(e.path) && declares(e);
    let mut files: Vec<Entry> = Vec::new();
    let mut manifests: Vec<Entry> = Vec::new();
    for entry in it: entries
        invariant
            all == views(it.seq()),
            source == (|e: EntryView| !is_manifest(e.path) && is_source(e.path)),
            manifest == (|e: EntryView| is_manifest(e.path) && declares(e)),
            views(files@) == all.take(it.index()).filter(source),
            views(manifests@) == all.take(it.index()).filter(manifest),
    {
        let ghost i = it.index();
        let ghost told = entry@;
        let ghost some_files = files@;
        let ghost some_manifests = manifests@;
        proof {
            assert(all[i] == told);
            assert(all.take(i + 1).drop_last() =~= all.take(i));
            assert(all.take(i + 1).last() == told);
            reveal(Seq::filter);
        }
        if is_a_manifest(&entry.path) {
            let depends = match &entry.text {
                Ok(text) => declares_stylus_sdk(text.as_str()),
                Err(_) => false,
            };
            if depends {
                manifests.push(entry);
                assert(views(manifests@) =~= views(some_manifests).push(told));
            }
        } else if is_a_source(&entry.path) {
            files.push(entry);
            assert(views(files@) =~= views(some_files).push(told));
        }
    }
    assert(all.take(all.len() as int) =~= all);
    assert(views(files@) == sources_among(all));
    assert(views(manifests@) == manifests_among(all));
    assert(files@.len() == sources_among(all).len());
    assert(manifests@.len() == manifests_among(all).len());

    if files.len() == 0 {
        return Err(NotStylus::NoRustSource(root.clone()));
    }
    // A single file is a legitimate target, and it has no manifest of its own.
    // Fall back to the source itself saying it is Stylus.

    if manifests.len() == 0 && !some_contract(&files) {
        return Err(NotStylus::NoSdkDependency(root.clone()));
    }
    arrange(&mut files);
    arrange(&mut manifests);
    Ok(Sources { files, manifests })
}

fn some_contract(files: &Vec<Entry>) -> (r: bool)
    ensures
        r == (exists|i: int|
            0 <= i < views(files@).len() && holds_a_contract(#[trigger] views(files@)[i])),
{
    let ghost all = views(files@);
    for i in 0..files.len()
        invariant
            all == views(files@),
            forall|j: int| 0 <= j < i ==> !holds_a_contract(#[trigger] all[j]),
    {
        assert(all[i as int] == files@[i as int]@);
        if let Ok(text) = &files[i].text {
            if let Ok(file) = parse(text.as_str()) {
                if declares_a_contract(&file) {
                    assert(holds_a_contract(all[i as int]));
                    return true;
                }
            }
        }
    }
    false
}

/// Whether a path leads to a manifest.
pub fn is_a_manifest(path: &FilePath) -> (r: bool)
    ensures
        r == is_manifest(path@),
{
    match path.file_name() {
        Some(name) => same(name, "Cargo.toml"),
        None => false,
    }
}

/// Whether a path leads to a Rust file.
pub fn is_a_source(path: &FilePath) -> (r: bool)
    ensures
        r == is_source(path@),
{
    match path.file_name() {
        Some(name) => {
            let letters = chars(name);
            proof {
                reveal_strlit(".rs");
            }
            ends_with(letters.as_slice(), ".rs") && letters.len() > 3
        },
        None => false,
    }
}

/// Directories whose contents are never the user's own contract code.
pub fn is_ignored_dir(path: &FilePath) -> (r: bool)
    ensures
        r == ignored(path@),
{
    match path.file_name() {
        Some(name) => same(name, "target") || same(name, ".git") || same(name, "node_modules")
            || same(name, ".cargo") || same(name, "vendor"),
        None => false,
    }
}

/// True when a manifest depends on the stylus-sdk, however it is spelled.
///
/// Deliberately textual. Reading the manifest properly would mean modelling
/// workspace inheritance, path dependencies and renamed crates, and getting
/// the answer wrong in either direction only changes whether we agree to look.
pub fn declares_stylus_sdk(manifest: &str) -> (r: bool)
    ensures
        r == depends_on_the_sdk(manifest@),
{
    let ghost all = lines(manifest@);
    let found = text_lines(manifest);
    for i in 0..found.len()
        invariant
            all == lines(manifest@),
            deep(found@) == all,
            forall|j: int| 0 <= j < i ==> !names_the_sdk(#[trigger] all[j]),
    {
        assert(all[i as int] == found@[i as int]@);
        let line = trim(found[i].as_slice());
        if !starts_with(line, "#") && (starts_with(line, "stylus-sdk") || starts_with(
            line,
            "stylus_sdk",
        )) {
            assert(names_the_sdk(all[i as int]));
            return true;
        }
    }
    false
}

/// True when a parsed file actually declares a Stylus contract.
///
/// Looking for these words in the text would be simpler and wrong: a program
/// that talks about contracts is full of them. The macro has to be invoked, not
/// merely mentioned.
pub fn declares_a_contract(file: &Node) -> (r: bool)
    ensures
        r == is_a_contract(file@),
{
    let ghost all = nodes(file@);
    let found = file.flatten();
    for i in 0..found.len()
        invariant
            all == nodes(file@),
            all == trees(found@),
            forall|j: int| 0 <= j < i ==> !marks_a_contract(#[trigger] all[j]),
    {
        let node = found[i];
        assert(all[i as int] == node@);
        let sort = node.sort();
        if sort == Sort::Macro {
            if let Some(name) = node.tail() {
                if same(name, "sol_storage") || same(name, "sol_interface") {
                    assert(marks_a_contract(all[i as int]));
                    return true;
                }
            }
        } else if sort == Sort::Implementation && has_attribute(node, "public") {
            assert(marks_a_contract(all[i as int]));
            return true;
        }
    }
    false
}

} // verus!
