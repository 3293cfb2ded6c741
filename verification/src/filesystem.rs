//! The file system as the scanner and the cache see it, and an in-memory
//! file system to stand in for the real one.
use crate::errors::{text_result_view, GrimpError, GrimpErrorView};
use crate::import_scanning::name_view;
use crate::text::{
    chars_of, count_leading, crlf_to_lf, join_chars, join_with, leading_count,
    normalize_newlines, slice_chars, split_chars, split_on, string_of, trailing_run_start,
    trim_chars, trim_end_length, trim_start_offset, trimmed, trimmed_end, trimmed_start, views,
    without_trailing,
};
use vstd::prelude::*;
use vstd::string::StringExecFns;
use vstd::utf8::{decode_utf8, valid_utf8};

verus! {

/// What reading a path gives in a file system that holds these files: the
/// text at the path, or a failure that names the path if none is there.
pub open spec fn read_from(files: Map<Seq<char>, Seq<char>>, file_name: Seq<char>) -> Result<
    Seq<char>,
    GrimpErrorView,
> {
    if files.contains_key(file_name) {
        Ok(files[file_name])
    } else {
        Err(GrimpErrorView::FileNotFound(file_name))
    }
}

/// What the scanner and the cache need of a file system. Paths are
/// strings; `sep` separates their components.
///
/// A file system may say what its answers are: `joined` and `split_of`
/// for how it joins and splits paths, and `held` for its files, if it
/// answers from a map of its own that only `write` changes. It is then
/// bound to what it says. One that says nothing, as one must whose
/// answers depend on a disk that others write to, is bound to nothing.
pub trait FileSystem: Send + Sync {
    /// The path that `join` makes of the components.
    open spec fn joined(&self, components: Seq<Seq<char>>) -> Option<Seq<char>> {
        None
    }

    /// The parent and the last component that `split` finds in a path.
    open spec fn split_of(&self, file_name: Seq<char>) -> Option<(Seq<char>, Seq<char>)> {
        None
    }

    /// The files by path.
    open spec fn held(&self) -> Option<Map<Seq<char>, Seq<char>>> {
        None
    }

    /// The separator between the components of a path.
    fn sep(&self) -> String;

    /// The components made into one path.
    fn join(&self, components: Vec<String>) -> (path: String)
        ensures
            self.joined(components@.map_values(|c: String| c@)) matches Some(made) ==> path@
                == made,
    ;

    /// A path's parent and its last component.
    fn split(&self, file_name: &str) -> (parts: (String, String))
        ensures
            self.split_of(file_name@) matches Some(found) ==> (parts.0@, parts.1@) == found,
    ;

    /// Whether there is a file at the path.
    fn file_exists(&self, file_name: &str) -> (found: bool)
        ensures
            self.held() matches Some(files) ==> found == files.contains_key(file_name@),
    ;

    /// The text of the file at the path.
    fn read(&self, file_name: &str) -> (text: Result<String, GrimpError>)
        ensures
            self.held() matches Some(files) ==> text_result_view(text) == read_from(
                files,
                file_name@,
            ),
    ;

    /// Puts a file with this text at the path, in place of any that is
    /// there. How paths are joined and split stays as it is.
    fn write(&mut self, file_name: &str, contents: &str) -> (written: Result<(), GrimpError>)
        ensures
            old(self).held() matches Some(files) ==> written is Ok && final(self).held() == Some(
                files.insert(file_name@, contents@),
            ),
            forall|components: Seq<Seq<char>>| #[trigger]
                final(self).joined(components) == old(self).joined(components),
            forall|path: Seq<char>| #[trigger] final(self).split_of(path) == old(self).split_of(path),
    ;
}

/// What a list of paths and contents maps each path to: where a path
/// occurs more than once, its last entry counts.
pub open spec fn entries_map(entries: Seq<(String, String)>) -> Map<Seq<char>, Seq<char>>
    decreases entries.len(),
{
    if entries.len() == 0 {
        Map::empty()
    } else {
        entries_map(entries.drop_last()).insert(entries.last().0@, entries.last().1@)
    }
}

/// The last entry for a path decides what the path maps to.
proof fn lemma_last_entry(entries: Seq<(String, String)>, path: Seq<char>, i: int)
    requires
        0 <= i < entries.len(),
        entries[i].0@ == path,
        forall|j: int| i < j < entries.len() ==> entries[j].0@ != path,
    ensures
        entries_map(entries).contains_key(path),
        entries_map(entries)[path] == entries[i].1@,
    decreases entries.len(),
{
    if i < entries.len() - 1 {
        lemma_last_entry(entries.drop_last(), path, i);
    }
}

/// A path without an entry is not mapped.
proof fn lemma_no_entry(entries: Seq<(String, String)>, path: Seq<char>)
    requires
        forall|j: int| 0 <= j < entries.len() ==> entries[j].0@ != path,
    ensures
        !entries_map(entries).contains_key(path),
    decreases entries.len(),
{
    if entries.len() > 0 {
        lemma_no_entry(entries.drop_last(), path);
    }
}

/// Replacing the last entry for a path maps the path anew and nothing else.
proof fn lemma_replace_entry(
    entries: Seq<(String, String)>,
    i: int,
    path: String,
    contents: String,
)
    requires
        0 <= i < entries.len(),
        entries[i].0@ == path@,
        forall|j: int| i < j < entries.len() ==> entries[j].0@ != path@,
    ensures
        entries_map(entries.update(i, (path, contents))) == entries_map(entries).insert(
            path@,
            contents@,
        ),
    decreases entries.len(),
{
    let changed = entries.update(i, (path, contents));
    if i == entries.len() - 1 {
        assert(changed.drop_last() =~= entries.drop_last());
        assert(entries_map(changed) =~= entries_map(entries).insert(path@, contents@));
    } else {
        lemma_replace_entry(entries.drop_last(), i, path, contents);
        assert(changed.drop_last() =~= entries.drop_last().update(i, (path, contents)));
        assert(changed.last() == entries.last());
        assert(entries_map(changed) =~= entries_map(entries).insert(path@, contents@));
    }
}

/// Files by path, with the text of each.
#[derive(Clone)]
pub struct FileSystemContents {
    entries: Vec<(String, String)>,
}

impl View for FileSystemContents {
    type V = Map<Seq<char>, Seq<char>>;

    closed spec fn view(&self) -> Map<Seq<char>, Seq<char>> {
        entries_map(self.entries@)
    }
}

impl FileSystemContents {
    /// No files.
    pub fn new() -> (contents: FileSystemContents)
        ensures
            contents@ == Map::<Seq<char>, Seq<char>>::empty(),
    {
        FileSystemContents { entries: Vec::new() }
    }

    /// Where the last entry for the path stands, if there is one.
    fn position(&self, path: &String) -> (found: Option<usize>)
        ensures
            match found {
                Some(i) => i < self.entries@.len() && self.entries@[i as int].0@ == path@
                    && forall|j: int| i < j < self.entries@.len() ==> self.entries@[j].0@ != path@,
                None => forall|j: int| 0 <= j < self.entries@.len() ==> self.entries@[j].0@ != path@,
            },
    {
        let mut i: usize = self.entries.len();
        while i > 0
            invariant
                i <= self.entries@.len(),
                forall|j: int| i <= j < self.entries@.len() ==> self.entries@[j].0@ != path@,
            decreases i,
        {
            i = i - 1;
            if self.entries[i].0 == *path {
                return Some(i);
            }
        }
        None
    }

    /// Whether there is a file at the path.
    pub fn contains_key(&self, path: &str) -> (r: bool)
        ensures
            r == self@.contains_key(path@),
    {
        let wanted = path.to_owned();
        match self.position(&wanted) {
            Some(i) => {
                proof {
                    lemma_last_entry(self.entries@, path@, i as int);
                }
                true
            },
            None => {
                proof {
                    lemma_no_entry(self.entries@, path@);
                }
                false
            },
        }
    }

    /// The text of the file at the path, if there is one.
    pub fn get(&self, path: &str) -> (text: Option<&String>)
        ensures
            match text {
                Some(t) => self@.contains_key(path@) && self@[path@] == t@,
                None => !self@.contains_key(path@),
            },
    {
        let wanted = path.to_owned();
        match self.position(&wanted) {
            Some(i) => {
                proof {
                    lemma_last_entry(self.entries@, path@, i as int);
                }
                Some(&self.entries[i].1)
            },
            None => {
                proof {
                    lemma_no_entry(self.entries@, path@);
                }
                None
            },
        }
    }

    /// Puts a file at the path, in place of any that is there.
    pub fn insert(&mut self, path: String, text: String)
        ensures
            final(self)@ == old(self)@.insert(path@, text@),
    {
        match self.position(&path) {
            Some(i) => {
                proof {
                    lemma_replace_entry(self.entries@, i as int, path, text);
                }
                self.entries.set(i, (path, text));
            },
            None => {
                let ghost before = self.entries@;
                self.entries.push((path, text));
                assert(self.entries@.drop_last() =~= before);
            },
        }
    }

    /// The paths, in the order in which they were first put.
    pub fn paths(&self) -> (paths: Vec<String>)
        ensures
            forall|i: int| 0 <= i < paths@.len() ==> self@.contains_key(#[trigger] paths@[i]@),
            forall|path: Seq<char>|
                self@.contains_key(path) ==> exists|i: int|
                    0 <= i < paths@.len() && (#[trigger] paths@[i])@ == path,
    {
        let mut paths: Vec<String> = Vec::new();
        let mut i: usize = 0;
        while i < self.entries.len()
            invariant
                i <= self.entries@.len(),
                paths@.len() == i,
                forall|k: int| 0 <= k < i ==> paths@[k]@ == self.entries@[k].0@,
            decreases self.entries.len() - i,
        {
            paths.push(self.entries[i].0.clone());
            i = i + 1;
        }
        proof {
            assert forall|i: int| 0 <= i < paths@.len() implies self@.contains_key(
                #[trigger] paths@[i]@,
            ) by {
                lemma_entry_mapped(self.entries@, i);
            }
            assert forall|path: Seq<char>| self@.contains_key(path) implies exists|i: int|
                0 <= i < paths@.len() && (#[trigger] paths@[i])@ == path by {
                if forall|j: int| 0 <= j < self.entries@.len() ==> self.entries@[j].0@ != path {
                    lemma_no_entry(self.entries@, path);
                }
                let j = choose|j: int| 0 <= j < self.entries@.len() && self.entries@[j].0@ == path;
                assert(paths@[j]@ == path);
            }
        }
        paths
    }
}

/// Every entry's path is mapped.
proof fn lemma_entry_mapped(entries: Seq<(String, String)>, i: int)
    requires
        0 <= i < entries.len(),
    ensures
        entries_map(entries).contains_key(entries[i].0@),
    decreases entries.len(),
{
    if i < entries.len() - 1 {
        lemma_entry_mapped(entries.drop_last(), i);
    }
}

/// What `unindent::unindent` makes of a text.
pub uninterp spec fn unindented(text: Seq<char>) -> Seq<char>;

/// Calls `unindent::unindent`, which takes from every line after the first
/// the indentation that those lines share.
#[verifier::external_body]
fn unindent_text(text: &str) -> (r: String)
    ensures
        r@ == unindented(text@),
{
    unindent::unindent(text)
}

/// What `std::path::Path::parent` gives for a path, as text.
pub uninterp spec fn path_parent(path: Seq<char>) -> Option<Seq<char>>;

/// What `std::path::Path::file_name` gives for a path, as text.
pub uninterp spec fn path_file_name(path: Seq<char>) -> Option<Seq<char>>;

/// Calls `Path::parent` on the path: the path without its last component,
/// if it has one, on the platform that the library is built for.
#[verifier::external_body]
fn parent_of(path: &str) -> (parent: Option<String>)
    ensures
        name_view(parent) == path_parent(path@),
{
    std::path::Path::new(path).parent().map(|p| p.to_string_lossy().into_owned())
}

/// Calls `Path::file_name` on the path: its last component, if that is a
/// name, on the platform that the library is built for.
#[verifier::external_body]
fn file_name_of(path: &str) -> (name: Option<String>)
    ensures
        name_view(name) == path_file_name(path@),
{
    std::path::Path::new(path).file_name().map(|n| n.to_string_lossy().into_owned())
}

/// What `std::path::PathBuf::push` makes of a path and one more component,
/// as text.
pub uninterp spec fn path_pushed(base: Seq<char>, component: Seq<char>) -> Seq<char>;

/// Calls `PathBuf::push` on the path with the component: the component is
/// put after the path, or in its place if the component is absolute, on
/// the platform that the library is built for.
#[verifier::external_body]
fn push_path(base: &str, component: &str) -> (path: String)
    ensures
        path@ == path_pushed(base@, component@),
{
    let mut path = std::path::PathBuf::from(base);
    path.push(component);
    path.to_string_lossy().into_owned()
}

/// The components joined as the host's file system joins them: each is
/// pushed on the path made of those before it, from the empty path on.
pub open spec fn paths_joined(components: Seq<Seq<char>>) -> Seq<char>
    decreases components.len(),
{
    if components.len() == 0 {
        Seq::<char>::empty()
    } else {
        path_pushed(paths_joined(components.drop_last()), components.last())
    }
}

/// Joins the components into a path of the host's file system.
pub fn join_path_components(components: &Vec<String>) -> (path: String)
    ensures
        path@ == paths_joined(components@.map_values(|c: String| c@)),
{
    let ghost all = components@.map_values(|c: String| c@);
    let mut path = String::new();
    let mut i: usize = 0;
    assert(all.take(0) =~= Seq::<Seq<char>>::empty());
    while i < components.len()
        invariant
            i <= components@.len(),
            all == components@.map_values(|c: String| c@),
            path@ == paths_joined(all.take(i as int)),
        decreases components.len() - i,
    {
        proof {
            let next = all.take(i + 1);
            assert(next.drop_last() =~= all.take(i as int));
            assert(next.last() == components@[i as int]@);
        }
        path = push_path(path.as_str(), components[i].as_str());
        i = i + 1;
    }
    assert(all.take(components@.len() as int) =~= all);
    path
}

/// The paths of the in-memory file system joined: each component without
/// the slashes at its end, with one slash between neighbours.
pub open spec fn fake_joined(components: Seq<Seq<char>>) -> Seq<char> {
    join_with(components.map_values(|c: Seq<char>| without_trailing(c, '/')), '/')
}

/// A path split in two, given what `Path::parent` and `Path::file_name`
/// say of it: its parent is the head and its file name the tail, each
/// empty where there is none.
pub open spec fn path_split(parent: Option<Seq<char>>, last: Option<Seq<char>>) -> (
    Seq<char>,
    Seq<char>,
) {
    (
        match parent {
            Some(p) => p,
            None => Seq::<char>::empty(),
        },
        match last {
            Some(l) => l,
            None => Seq::<char>::empty(),
        },
    )
}

/// A path of the in-memory file system split in two: a path that ends in
/// a slash has all before that slash as its head and an empty tail; any
/// other is split as every path is.
pub open spec fn fake_split(
    file_name: Seq<char>,
    parent: Option<Seq<char>>,
    last: Option<Seq<char>>,
) -> (Seq<char>, Seq<char>) {
    if file_name.len() > 0 && file_name.last() == '/' {
        (file_name.drop_last(), Seq::<char>::empty())
    } else {
        path_split(parent, last)
    }
}

/// Splits a path of the host's file system into its parent and its last
/// component.
pub fn split_path(file_name: &str) -> (parts: (String, String))
    ensures
        (parts.0@, parts.1@) == path_split(path_parent(file_name@), path_file_name(file_name@)),
{
    let tail = match file_name_of(file_name) {
        Some(name) => name,
        None => String::new(),
    };
    let head = match parent_of(file_name) {
        Some(parent_path) => parent_path,
        None => String::new(),
    };
    (head, tail)
}

/// Splits a path of the in-memory file system, given its parent and its
/// file name.
pub fn split_parts(file_name: &str, parent: Option<String>, last: Option<String>) -> (parts: (
    String,
    String,
))
    ensures
        (parts.0@, parts.1@) == fake_split(
            file_name@,
            name_view(parent),
            name_view(last),
        ),
{
    let name = chars_of(file_name);
    if name.len() > 0 && name[name.len() - 1] == '/' {
        let head = slice_chars(&name, 0, name.len() - 1);
        assert(head@ =~= name@.drop_last());
        (string_of(&head), String::new())
    } else {
        (
            match parent {
                Some(p) => p,
                None => String::new(),
            },
            match last {
                Some(l) => l,
                None => String::new(),
            },
        )
    }
}

/// What the in-memory file system holds once the given texts have been
/// put at their paths, each unindented and trimmed.
pub open spec fn with_texts(base: Map<Seq<char>, Seq<char>>, texts: Seq<(String, String)>) -> Map<
    Seq<char>,
    Seq<char>,
>
    decreases texts.len(),
{
    if texts.len() == 0 {
        base
    } else {
        with_texts(base, texts.drop_last()).insert(
            texts.last().0@,
            trimmed(unindented(texts.last().1@)),
        )
    }
}

/// A file system held in memory: a map from path to text.
#[derive(Clone)]
pub struct FakeBasicFileSystem {
    contents: FileSystemContents,
}

impl View for FakeBasicFileSystem {
    type V = Map<Seq<char>, Seq<char>>;

    closed spec fn view(&self) -> Map<Seq<char>, Seq<char>> {
        self.contents@
    }
}

impl FileSystemContents {
    /// Puts a text at the path, without the white space at its ends.
    pub fn insert_trimmed(&mut self, path: String, text: &str)
        ensures
            final(self)@ == old(self)@.insert(path@, trimmed(text@)),
    {
        let chars = chars_of(text);
        let kept = trim_chars(&chars);
        self.insert(path, string_of(&kept));
    }
}

impl FakeBasicFileSystem {
    /// The file system that an indented description lays out, if one is
    /// given, with the texts of `content_map` put at their paths.
    pub fn new(contents: Option<&str>, content_map: Option<Vec<(String, String)>>) -> (file_system:
        FakeBasicFileSystem)
        ensures
            file_system@ == with_texts(
                match contents {
                    Some(description) => parsed_file_system(description@),
                    None => Map::empty(),
                },
                match content_map {
                    Some(texts) => texts@,
                    None => Seq::empty(),
                },
            ),
    {
        let mut parsed_contents = match contents {
            Some(description) => parse_indented_file_system_string(description),
            None => FileSystemContents::new(),
        };
        let ghost base = parsed_contents@;
        if let Some(texts) = content_map {
            let mut i: usize = 0;
            assert(texts@.take(0) =~= Seq::<(String, String)>::empty());
            while i < texts.len()
                invariant
                    i <= texts@.len(),
                    parsed_contents@ == with_texts(base, texts@.take(i as int)),
                decreases texts.len() - i,
            {
                let unindented_text = unindent_text(texts[i].1.as_str());
                parsed_contents.insert_trimmed(texts[i].0.clone(), unindented_text.as_str());
                proof {
                    let next = texts@.take(i + 1);
                    assert(next.drop_last() =~= texts@.take(i as int));
                    assert(next.last() == texts@[i as int]);
                }
                i = i + 1;
            }
            assert(texts@.take(texts@.len() as int) =~= texts@);
        }
        FakeBasicFileSystem { contents: parsed_contents }
    }

    /// The file system that holds exactly these files.
    pub fn from_contents(contents: FileSystemContents) -> (file_system: FakeBasicFileSystem)
        ensures
            file_system@ == contents@,
    {
        FakeBasicFileSystem { contents }
    }
}

impl FileSystem for FakeBasicFileSystem {
    open spec fn joined(&self, components: Seq<Seq<char>>) -> Option<Seq<char>> {
        Some(fake_joined(components))
    }

    open spec fn split_of(&self, file_name: Seq<char>) -> Option<(Seq<char>, Seq<char>)> {
        Some(fake_split(file_name, path_parent(file_name), path_file_name(file_name)))
    }

    open spec fn held(&self) -> Option<Map<Seq<char>, Seq<char>>> {
        Some(self@)
    }

    fn sep(&self) -> (separator: String)
        ensures
            separator@ == seq!['/'],
    {
        let mut separator: Vec<char> = Vec::new();
        separator.push('/');
        assert(separator@ =~= seq!['/']);
        string_of(&separator)
    }

    fn join(&self, components: Vec<String>) -> (path: String)
        ensures
            path@ == fake_joined(components@.map_values(|c: String| c@)),
    {
        let mut pieces: Vec<Vec<char>> = Vec::new();
        let mut i: usize = 0;
        let ghost wanted = components@.map_values(|c: String| c@).map_values(
            |c: Seq<char>| without_trailing(c, '/'),
        );
        while i < components.len()
            invariant
                i <= components@.len(),
                wanted == components@.map_values(|c: String| c@).map_values(
                    |c: Seq<char>| without_trailing(c, '/'),
                ),
                views(pieces@) == wanted.take(i as int),
            decreases components.len() - i,
        {
            let component = chars_of(components[i].as_str());
            let kept = trailing_run_start(&component, '/');
            let piece = slice_chars(&component, 0, kept);
            assert(piece@ =~= component@.take(kept as int));
            let ghost pieces_before = views(pieces@);
            pieces.push(piece);
            assert(components@.map_values(|c: String| c@)[i as int] == component@);
            assert(wanted[i as int] == piece@);
            assert(views(pieces@) =~= pieces_before.push(piece@));
            assert(views(pieces@) =~= wanted.take(i + 1));
            i = i + 1;
        }
        assert(wanted.take(components@.len() as int) =~= wanted);
        let joined = join_chars(&pieces, pieces.len(), '/');
        assert(views(pieces@).take(pieces@.len() as int) =~= views(pieces@));
        string_of(&joined)
    }

    fn split(&self, file_name: &str) -> (parts: (String, String))
        ensures
            (parts.0@, parts.1@) == fake_split(
                file_name@,
                path_parent(file_name@),
                path_file_name(file_name@),
            ),
    {
        let parent = parent_of(file_name);
        let last = file_name_of(file_name);
        split_parts(file_name, parent, last)
    }

    fn file_exists(&self, file_name: &str) -> (found: bool)
        ensures
            found == self@.contains_key(file_name@),
    {
        self.contents.contains_key(file_name)
    }

    fn read(&self, file_name: &str) -> (text: Result<String, GrimpError>)
        ensures
            match text {
                Ok(t) => self@.contains_key(file_name@) && t@ == self@[file_name@],
                Err(e) => {
                    &&& !self@.contains_key(file_name@)
                    &&& e matches GrimpError::FileNotFound(path)
                    &&& path@ == file_name@
                },
            },
    {
        match self.contents.get(file_name) {
            Some(text) => Ok(text.clone()),
            None => Err(GrimpError::FileNotFound(file_name.to_owned())),
        }
    }

    fn write(&mut self, file_name: &str, contents: &str) -> (written: Result<(), GrimpError>)
        ensures
            written is Ok,
            final(self)@ == old(self)@.insert(file_name@, contents@),
    {
        self.contents.insert(file_name.to_owned(), contents.to_owned());
        Ok(())
    }
}

/// Where the parser of an indented description stands between two lines:
/// the directories it is in, whether it has seen the root, and the files
/// found so far.
#[verifier::ext_equal]
pub struct ParseState {
    pub stack: Seq<Seq<char>>,
    pub started: bool,
    pub files: Map<Seq<char>, Seq<char>>,
}

/// The path that a stack of components stands for: the components joined
/// by slashes, with a slash in front where the description is rooted and
/// the joined path does not begin with one. An empty stack stands for the
/// empty path.
pub open spec fn full_path(stack: Seq<Seq<char>>, rooted: bool) -> Seq<char> {
    if stack.len() == 0 {
        Seq::<char>::empty()
    } else {
        let joined = join_with(stack, '/');
        if rooted && !(joined.len() > 0 && joined[0] == '/') {
            seq!['/'] + joined
        } else {
            joined
        }
    }
}

/// The stack cut down to `depth` components, if it has more.
pub open spec fn popped_to(stack: Seq<Seq<char>>, depth: nat) -> Seq<Seq<char>> {
    if stack.len() > depth {
        stack.take(depth as int)
    } else {
        stack
    }
}

/// The state after one more line. A line of white space changes nothing.
/// Otherwise the line's depth is a quarter of the number of its leading
/// spaces, and its entry is the line without the white space at its ends,
/// and without the slashes at its end. The first entry is the root. Each
/// later one goes under the directory at its depth: the stack is cut down
/// to the depth and the entry, unless empty, put on top. A line that does
/// not end in a slash is a file: its path is recorded, with empty
/// contents, and its entry leaves the stack again.
pub open spec fn after_line(state: ParseState, rooted: bool, raw: Seq<char>) -> ParseState {
    let line = trimmed_end(raw);
    if line.len() == 0 {
        state
    } else {
        let depth = leading_count(line, ' ') / 4;
        let entry = trimmed_start(line);
        let component = without_trailing(entry, '/');
        let stack = if !state.started {
            state.stack.push(component)
        } else if component.len() > 0 {
            popped_to(state.stack, depth).push(component)
        } else {
            popped_to(state.stack, depth)
        };
        if entry.len() > 0 && entry.last() == '/' {
            ParseState { stack, started: true, files: state.files }
        } else {
            ParseState {
                stack: if stack.len() > 0 {
                    stack.drop_last()
                } else {
                    stack
                },
                started: true,
                files: state.files.insert(full_path(stack, rooted), Seq::<char>::empty()),
            }
        }
    }
}

/// The state after all of `lines`.
pub open spec fn after_lines(lines: Seq<Seq<char>>, rooted: bool) -> ParseState
    decreases lines.len(),
{
    if lines.len() == 0 {
        ParseState { stack: Seq::empty(), started: false, files: Map::empty() }
    } else {
        after_line(after_lines(lines.drop_last(), rooted), rooted, lines.last())
    }
}

/// Whether a line, without the white space at its ends, begins with a slash.
pub open spec fn begins_rooted(line: Seq<char>) -> bool {
    trimmed(line).len() > 0 && trimmed(line)[0] == '/'
}

/// The files that an indented description lays out. Its lines are those
/// between line feeds, a carriage return before a line feed not counted.
/// The description is rooted if its first line begins with a slash. Only
/// files are recorded: a directory has no entry of its own.
pub open spec fn parsed_file_system(description: Seq<char>) -> Map<Seq<char>, Seq<char>> {
    let lines = split_on(crlf_to_lf(description), '\n');
    after_lines(lines, begins_rooted(lines[0])).files
}

/// Takes one line of an indented description into account.
fn parse_line(
    path_stack: &mut Vec<Vec<char>>,
    first_line: &mut bool,
    file_paths_map: &mut FileSystemContents,
    rooted: bool,
    line_raw: &Vec<char>,
)
    ensures
        (ParseState {
            stack: views(final(path_stack)@),
            started: !*final(first_line),
            files: final(file_paths_map)@,
        }) == after_line(
            ParseState {
                stack: views(old(path_stack)@),
                started: !*old(first_line),
                files: old(file_paths_map)@,
            },
            rooted,
            line_raw@,
        ),
{
    let ghost before = views(path_stack@);
    let length = trim_end_length(line_raw);
    let line = slice_chars(line_raw, 0, length);
    assert(line@ =~= trimmed_end(line_raw@));
    if line.len() == 0 {
        return ;
    }
    let current_indent = count_leading(&line, ' ');
    let current_depth = current_indent / 4;
    let offset = trim_start_offset(&line);
    let trimmed_line = slice_chars(&line, offset, line.len());
    assert(trimmed_line@ =~= trimmed_start(line@));
    let kept = trailing_run_start(&trimmed_line, '/');
    let component_to_add = slice_chars(&trimmed_line, 0, kept);
    assert(component_to_add@ =~= without_trailing(trimmed_line@, '/'));
    let is_directory = trimmed_line.len() > 0 && trimmed_line[trimmed_line.len() - 1] == '/';
    if *first_line {
        path_stack.push(component_to_add);
        *first_line = false;
        assert(views(path_stack@) =~= before.push(component_to_add@));
    } else {
        if path_stack.len() > current_depth {
            path_stack.truncate(current_depth);
        }
        assert(views(path_stack@) =~= popped_to(before, current_depth as nat));
        if component_to_add.len() > 0 {
            path_stack.push(component_to_add);
            assert(views(path_stack@) =~= popped_to(before, current_depth as nat).push(
                component_to_add@,
            ));
        }
    }
    let ghost stack = views(path_stack@);
    if !is_directory {
        let mut full: Vec<char> = Vec::new();
        if path_stack.len() > 0 {
            let joined = join_chars(path_stack, path_stack.len(), '/');
            assert(views(path_stack@).take(path_stack@.len() as int) =~= views(path_stack@));
            if rooted && !(joined.len() > 0 && joined[0] == '/') {
                full.push('/');
                let mut i: usize = 0;
                while i < joined.len()
                    invariant
                        i <= joined@.len(),
                        full@ == seq!['/'] + joined@.take(i as int),
                    decreases joined.len() - i,
                {
                    full.push(joined[i]);
                    assert(joined@.take(i + 1) =~= joined@.take(i as int).push(joined@[i as int]));
                    i = i + 1;
                }
                assert(joined@.take(joined@.len() as int) =~= joined@);
            } else {
                full = joined;
            }
        }
        assert(full@ =~= full_path(stack, rooted));
        file_paths_map.insert(string_of(&full), String::new());
        if path_stack.len() > 0 {
            path_stack.pop();
            assert(views(path_stack@) =~= stack.drop_last());
        }
    }
}

/// Parses an indented description of a file system into the files it
/// lays out, each with empty contents.
pub fn parse_indented_file_system_string(file_system_string: &str) -> (file_paths_map:
    FileSystemContents)
    ensures
        file_paths_map@ == parsed_file_system(file_system_string@),
{
    let mut file_paths_map = FileSystemContents::new();
    let mut path_stack: Vec<Vec<char>> = Vec::new();
    let mut first_line = true;
    let text = chars_of(file_system_string);
    let buffer = normalize_newlines(&text);
    let lines = split_chars(&buffer, '\n');
    proof {
        crate::text::lemma_split_pieces(buffer@, '\n');
    }
    let first = trim_chars(&lines[0]);
    let rooted = first.len() > 0 && first[0] == '/';
    assert(lines@[0]@ == views(lines@)[0]);
    let mut i: usize = 0;
    assert(views(lines@).take(0) =~= Seq::<Seq<char>>::empty());
    assert((ParseState {
        stack: views(path_stack@),
        started: !first_line,
        files: file_paths_map@,
    }) =~= after_lines(views(lines@).take(0), rooted));
    while i < lines.len()
        invariant
            i <= lines@.len(),
            (ParseState {
                stack: views(path_stack@),
                started: !first_line,
                files: file_paths_map@,
            }) == after_lines(views(lines@).take(i as int), rooted),
        decreases lines.len() - i,
    {
        proof {
            let next = views(lines@).take(i + 1);
            assert(next.drop_last() =~= views(lines@).take(i as int));
            assert(next.last() == lines@[i as int]@);
        }
        parse_line(&mut path_stack, &mut first_line, &mut file_paths_map, rooted, &lines[i]);
        i = i + 1;
    }
    assert(views(lines@).take(lines@.len() as int) =~= views(lines@));
    file_paths_map
}

/// The pattern of an encoding declaration: a comment that names a coding.
pub const ENCODING_DECLARATION: &'static str = "^[ \\t\\f]*#.*?coding[:=][ \\t]*([-_.a-zA-Z0-9]+)";

/// The text that `String::from_utf8_lossy` makes of bytes.
pub uninterp spec fn utf8_lossy(bytes: Seq<u8>) -> Seq<char>;

/// Calls `String::from_utf8_lossy`, which reads the bytes as UTF-8 and puts
/// a replacement character for what is not.
#[verifier::external_body]
fn lossy_text(bytes: &Vec<u8>) -> (text: String)
    ensures
        text@ == utf8_lossy(bytes@),
{
    String::from_utf8_lossy(bytes).into_owned()
}

/// Calls `String::from_utf8`: the text that the bytes encode, if they are
/// UTF-8.
#[verifier::external_body]
fn strict_text(bytes: Vec<u8>) -> (text: Option<String>)
    ensures
        text is Some <==> valid_utf8(bytes@),
        text matches Some(t) ==> t@ == decode_utf8(bytes@),
{
    String::from_utf8(bytes).ok()
}

/// What the first capture group of a pattern holds where the regex crate
/// first finds the pattern in a text; none if the pattern is not found, has
/// no such group taking part, or is no pattern.
pub uninterp spec fn regex_first_group(pattern: Seq<char>, text: Seq<char>) -> Option<Seq<char>>;

/// Compiles the pattern with `regex::Regex::new`, searches the text with
/// `Regex::captures`, and hands out what the first group matched.
#[verifier::external_body]
fn first_group(pattern: &str, text: &str) -> (group: Option<String>)
    ensures
        name_view(group) == regex_first_group(pattern@, text@),
{
    let re = regex::Regex::new(pattern).ok()?;
    let found = re.captures(text)?;
    Some(found.get(1)?.as_str().to_string())
}

/// What encoding_rs decodes bytes to under the encoding that a label
/// names, and whether it met malformed sequences; none if the label names
/// no encoding.
pub uninterp spec fn labelled_decoding(label: Seq<char>, bytes: Seq<u8>) -> Option<
    (Seq<char>, bool),
>;

/// Looks the label up with `encoding_rs::Encoding::for_label` and decodes
/// the bytes with `Encoding::decode`. The bound on the length keeps the
/// size of the decoder's buffer, at most three times the length and a
/// little, within `usize`.
#[verifier::external_body]
fn decode_labelled(label: &str, bytes: &Vec<u8>) -> (decoding: Option<(String, bool)>)
    requires
        bytes.len() <= usize::MAX / 8,
    ensures
        match decoding {
            Some((text, had_errors)) => labelled_decoding(label@, bytes@) == Some(
                (text@, had_errors),
            ),
            None => labelled_decoding(label@, bytes@) is None,
        },
{
    let encoding = encoding_rs::Encoding::for_label(label.as_bytes())?;
    let (text, _, had_errors) = encoding.decode(bytes);
    Some((text.into_owned(), had_errors))
}

/// `s` without its last character, if that is `c`.
pub open spec fn without_last(s: Seq<char>, c: char) -> Seq<char> {
    if s.len() > 0 && s.last() == c {
        s.drop_last()
    } else {
        s
    }
}

/// The lines of a text: what stands before each line feed, without a
/// carriage return at its end, and what follows the last line feed, if
/// anything does.
pub open spec fn text_lines(text: Seq<char>) -> Seq<Seq<char>> {
    let pieces = split_on(text, '\n');
    let ended = Seq::new((pieces.len() - 1) as nat, |i: int| without_last(pieces[i], '\r'));
    if pieces.last().len() > 0 {
        ended.push(pieces.last())
    } else {
        ended
    }
}

/// The lines of a text.
pub fn lines_of(text: &Vec<char>) -> (lines: Vec<Vec<char>>)
    ensures
        views(lines@) == text_lines(text@),
{
    let pieces = split_chars(text, '\n');
    proof {
        crate::text::lemma_split_pieces(text@, '\n');
    }
    let ghost wanted = Seq::new(
        (pieces@.len() - 1) as nat,
        |i: int| without_last(views(pieces@)[i], '\r'),
    );
    let mut lines: Vec<Vec<char>> = Vec::new();
    let mut i: usize = 0;
    while i < pieces.len() - 1
        invariant
            pieces@.len() >= 1,
            i <= pieces@.len() - 1,
            views(lines@) == wanted.take(i as int),
            wanted == Seq::new(
                (pieces@.len() - 1) as nat,
                |i: int| without_last(views(pieces@)[i], '\r'),
            ),
        decreases pieces.len() - 1 - i,
    {
        let piece = &pieces[i];
        let kept = if piece.len() > 0 && piece[piece.len() - 1] == '\r' {
            piece.len() - 1
        } else {
            piece.len()
        };
        let line = slice_chars(piece, 0, kept);
        assert(line@ =~= without_last(piece@, '\r'));
        let ghost before = views(lines@);
        lines.push(line);
        assert(views(lines@) =~= before.push(line@));
        assert(views(lines@) =~= wanted.take(i + 1));
        i = i + 1;
    }
    assert(wanted.take(wanted.len() as int) =~= wanted);
    let last = &pieces[pieces.len() - 1];
    if last.len() > 0 {
        let ghost before = views(lines@);
        lines.push(slice_chars(last, 0, last.len()));
        assert(last@.subrange(0, last@.len() as int) =~= last@);
        assert(views(lines@) =~= before.push(last@));
    }
    assert(views(pieces@).last() == pieces@[pieces@.len() - 1]@);
    lines
}

/// The encoding that the first two lines declare: what the first line
/// declares, or else the second.
pub open spec fn picked_declaration(on_first: Option<Seq<char>>, on_second: Option<Seq<char>>) -> Option<
    Seq<char>,
> {
    if on_first is Some {
        on_first
    } else {
        on_second
    }
}

/// Picks the declaration of the first line, or else of the second.
pub fn pick_declaration(on_first: Option<String>, on_second: Option<String>) -> (picked: Option<
    String,
>)
    ensures
        name_view(picked) == picked_declaration(name_view(on_first), name_view(on_second)),
{
    match on_first {
        Some(label) => Some(label),
        None => on_second,
    }
}

/// What a line declares, if there is such a line.
pub open spec fn declared_on(lines: Seq<Seq<char>>, index: int) -> Option<Seq<char>> {
    if index < lines.len() {
        regex_first_group(ENCODING_DECLARATION@, lines[index])
    } else {
        None
    }
}

/// The encoding that the bytes declare for themselves: the bytes are read
/// leniently as UTF-8, and the declaration is looked for on the first two
/// lines.
pub open spec fn declared_encoding(bytes: Seq<u8>) -> Option<Seq<char>> {
    let lines = text_lines(utf8_lossy(bytes));
    picked_declaration(declared_on(lines, 0), declared_on(lines, 1))
}

/// Finds the encoding that the bytes of a source file declare.
pub fn detect_encoding(bytes: &Vec<u8>) -> (declared: Option<String>)
    ensures
        name_view(declared) == declared_encoding(bytes@),
{
    let text = lossy_text(bytes);
    let chars = chars_of(text.as_str());
    let lines = lines_of(&chars);
    let on_first = if lines.len() > 0 {
        assert(views(lines@)[0] == lines@[0]@);
        let line = string_of(&lines[0]);
        first_group(ENCODING_DECLARATION, line.as_str())
    } else {
        None
    };
    let on_second = if on_first.is_none() && lines.len() > 1 {
        assert(views(lines@)[1] == lines@[1]@);
        let line = string_of(&lines[1]);
        first_group(ENCODING_DECLARATION, line.as_str())
    } else {
        None
    };
    pick_declaration(on_first, on_second)
}

/// The text of a file under a declared encoding, given what the decoder
/// made of the bytes: a failure if the label names no encoding or the
/// bytes held malformed sequences.
pub open spec fn text_of_decoding(
    file_name: Seq<char>,
    label: Seq<char>,
    decoding: Option<(Seq<char>, bool)>,
) -> Result<Seq<char>, GrimpErrorView> {
    match decoding {
        None => Err(GrimpErrorView::DecodeError(file_name, "unknown encoding "@ + label)),
        Some((text, had_errors)) => if had_errors {
            Err(GrimpErrorView::DecodeError(file_name, "malformed text in encoding "@ + label))
        } else {
            Ok(text)
        },
    }
}

/// Turns what the decoder made of the bytes into the text of the file or
/// a failure.
pub fn decoded_text(file_name: &str, label: &str, decoding: Option<(String, bool)>) -> (text: Result<
    String,
    GrimpError,
>)
    ensures
        text_result_view(text) == text_of_decoding(
            file_name@,
            label@,
            match decoding {
                Some((t, had_errors)) => Some((t@, had_errors)),
                None => None,
            },
        ),
{
    match decoding {
        None => Err(
            GrimpError::DecodeError(
                file_name.to_owned(),
                "unknown encoding ".to_owned().concat(label),
            ),
        ),
        Some((text, had_errors)) => {
            if had_errors {
                Err(
                    GrimpError::DecodeError(
                        file_name.to_owned(),
                        "malformed text in encoding ".to_owned().concat(label),
                    ),
                )
            } else {
                Ok(text)
            }
        },
    }
}

/// The text of a file that declares no encoding: what its bytes encode in
/// UTF-8, or a failure if they are not UTF-8.
pub open spec fn text_of_utf8(file_name: Seq<char>, bytes: Seq<u8>) -> Result<
    Seq<char>,
    GrimpErrorView,
> {
    if valid_utf8(bytes) {
        Ok(decode_utf8(bytes))
    } else {
        Err(GrimpErrorView::DecodeError(file_name, "invalid UTF-8"@))
    }
}

/// The text of a source file with these bytes: decoded in the encoding
/// that the file declares for itself, or else as UTF-8. Bytes too many
/// for the decoder of a declared encoding are a failure.
pub open spec fn decoded_source(bytes: Seq<u8>, file_name: Seq<char>) -> Result<
    Seq<char>,
    GrimpErrorView,
> {
    match declared_encoding(bytes) {
        Some(label) => if bytes.len() > usize::MAX / 8 {
            Err(GrimpErrorView::DecodeError(file_name, "too long"@))
        } else {
            text_of_decoding(file_name, label, labelled_decoding(label, bytes))
        },
        None => text_of_utf8(file_name, bytes),
    }
}

/// Decodes the bytes of a source file.
pub fn decode_source(bytes: Vec<u8>, file_name: &str) -> (text: Result<String, GrimpError>)
    ensures
        text_result_view(text) == decoded_source(bytes@, file_name@),
{
    match detect_encoding(&bytes) {
        Some(enc_name) => {
            if bytes.len() > usize::MAX / 8 {
                return Err(GrimpError::DecodeError(file_name.to_owned(), "too long".to_owned()));
            }
            let decoding = decode_labelled(enc_name.as_str(), &bytes);
            decoded_text(file_name, enc_name.as_str(), decoding)
        },
        None => {
            match strict_text(bytes) {
                Some(text) => Ok(text),
                None => Err(
                    GrimpError::DecodeError(file_name.to_owned(), "invalid UTF-8".to_owned()),
                ),
            }
        },
    }
}

} // verus!
