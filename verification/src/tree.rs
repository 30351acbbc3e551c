//! The entry model: one node of a directory tree, the facts shown about it,
//! and the choices that govern a traversal.

use vstd::prelude::*;
use crate::filter::Filter;
use crate::filter::FilterView;
use crate::sort::SortKey;
use crate::text::owned;
pub use crate::walk::walk_directory;
use vstd::string::StringExecFns;

verus! {

/// A point in time, counted from the Unix epoch. `nanos` is below one
/// second; an earlier point has the smaller `(secs, nanos)` pair.
#[derive(Debug, Clone, Copy, PartialEq, Eq, Structural)]
pub struct Timestamp {
    pub secs: i64,
    pub nanos: u32,
}

/// A snapshot of what the file system reported about a path, with symbolic
/// links followed.
#[derive(Debug, Clone, Copy, PartialEq, Eq, Structural)]
pub struct Metadata {
    pub is_dir: bool,
    pub len: u64,
    pub mode: u32,
    pub modified: Option<Timestamp>,
}

/// What was learned about a path before its entry is made. Each part is
/// absent where the file system gave no answer.
#[derive(Debug, Clone)]
pub struct Probe {
    /// Whether the path itself is a symbolic link.
    pub is_symlink: Option<bool>,
    /// The snapshot of the path, links followed.
    pub metadata: Option<Metadata>,
    /// Where the link points, for a path that is a link.
    pub link_target: Option<String>,
}

/// One node of the tree.
#[derive(Debug)]
pub struct TreeEntry {
    pub path: String,
    pub name: String,
    pub is_dir: bool,
    pub is_symlink: bool,
    pub symlink_target: Option<String>,
    pub metadata: Option<Metadata>,
    pub children: Vec<TreeEntry>,
    pub error: Option<String>,
}

/// The mathematical model of a `TreeEntry` and everything below it.
pub ghost struct EntryView {
    pub path: Seq<char>,
    pub name: Seq<char>,
    pub is_dir: bool,
    pub is_symlink: bool,
    pub symlink_target: Option<Seq<char>>,
    pub metadata: Option<Metadata>,
    pub children: Seq<EntryView>,
    pub error: Option<Seq<char>>,
}

/// The characters of an optional string.
pub open spec fn text_view(s: Option<String>) -> Option<Seq<char>> {
    match s {
        Some(t) => Some(t@),
        None => None,
    }
}

/// The model of one entry with everything below it.
pub open spec fn entry_view(e: TreeEntry) -> EntryView
    decreases e, 1nat,
{
    EntryView {
        path: e.path@,
        name: e.name@,
        is_dir: e.is_dir,
        is_symlink: e.is_symlink,
        symlink_target: text_view(e.symlink_target),
        metadata: e.metadata,
        children: forest_view(e.children@),
        error: text_view(e.error),
    }
}

/// The models of a run of sibling entries, in their order.
pub open spec fn forest_view(s: Seq<TreeEntry>) -> Seq<EntryView>
    decreases s, 0nat,
{
    if s.len() == 0 {
        Seq::empty()
    } else {
        forest_view(s.drop_last()).push(entry_view(s.last()))
    }
}

impl View for TreeEntry {
    type V = EntryView;

    open spec fn view(&self) -> EntryView {
        entry_view(*self)
    }
}

/// The model of a run of siblings holds the model of each, at its place.
pub proof fn lemma_forest_view(s: Seq<TreeEntry>)
    ensures
        forest_view(s).len() == s.len(),
        forall|i: int| 0 <= i < s.len() ==> #[trigger] forest_view(s)[i] == s[i]@,
    decreases s.len(),
{
    if s.len() > 0 {
        lemma_forest_view(s.drop_last());
    }
}

/// Adding a sibling at the end adds its model at the end.
pub proof fn lemma_forest_view_push(s: Seq<TreeEntry>, e: TreeEntry)
    ensures
        forest_view(s.push(e)) == forest_view(s).push(e@),
{
    assert(s.push(e).drop_last() =~= s);
}

/// An entry that is not a directory has no children, at every level.
pub open spec fn well_formed(e: EntryView) -> bool
    decreases e,
{
    &&& !e.is_dir ==> e.children.len() == 0
    &&& forall|i: int| 0 <= i < e.children.len() ==> well_formed(#[trigger] e.children[i])
}

/// The number of entries in the tree, the root included.
pub open spec fn tree_size(e: EntryView) -> nat
    decreases e, 1nat,
{
    1 + forest_size(e.children)
}

/// The number of entries in a run of sibling trees.
pub open spec fn forest_size(s: Seq<EntryView>) -> nat
    decreases s, 0nat,
{
    if s.len() == 0 {
        0
    } else {
        forest_size(s.drop_last()) + tree_size(s.last())
    }
}

/// The number of entries in the tree that are directories (`dirs`) or that
/// are not (`!dirs`), the root included.
pub open spec fn tree_count(e: EntryView, dirs: bool) -> nat
    decreases e, 1nat,
{
    (if e.is_dir == dirs { 1nat } else { 0nat }) + forest_count(e.children, dirs)
}

/// The number of such entries in a run of sibling trees.
pub open spec fn forest_count(s: Seq<EntryView>, dirs: bool) -> nat
    decreases s, 0nat,
{
    if s.len() == 0 {
        0
    } else {
        forest_count(s.drop_last(), dirs) + tree_count(s.last(), dirs)
    }
}

/// Every entry is a directory or is not.
pub proof fn lemma_tree_size_split(e: EntryView)
    ensures
        tree_size(e) == tree_count(e, true) + tree_count(e, false),
    decreases e, 1nat,
{
    lemma_forest_size_split(e.children);
}

/// Every entry of a forest is a directory or is not.
pub proof fn lemma_forest_size_split(s: Seq<EntryView>)
    ensures
        forest_size(s) == forest_count(s, true) + forest_count(s, false),
    decreases s, 0nat,
{
    if s.len() > 0 {
        lemma_forest_size_split(s.drop_last());
        lemma_tree_size_split(s.last());
    }
}

/// What `Path::file_name` returns for a path with the given characters: the
/// final component, if there is one.
pub uninterp spec fn path_file_name(path: Seq<char>) -> Option<Seq<char>>;

/// `std::path::Path::file_name` on the path's text: the final component of
/// the path, or `None` where the path ends in `..` or has no component. It
/// reads the text alone and never the file system.
#[verifier::external_body]
pub(crate) fn file_name_of(path: &str) -> (name: Option<String>)
    ensures
        text_view(name) == path_file_name(path@),
{
    std::path::Path::new(path).file_name().map(|s| s.to_string_lossy().into_owned())
}

/// The name under which a path is shown: its final component, or the whole
/// path where it has none.
pub open spec fn display_name(path: Seq<char>) -> Seq<char> {
    match path_file_name(path) {
        Some(name) => name,
        None => path,
    }
}

/// The entry made for `path` from what was learned about it, before any
/// child is attached.
pub open spec fn fresh_entry(path: Seq<char>, probe: Probe) -> EntryView {
    let is_symlink = probe.is_symlink == Some(true);
    EntryView {
        path: path,
        name: display_name(path),
        is_dir: probe.metadata is Some && probe.metadata->0.is_dir,
        is_symlink: is_symlink,
        symlink_target: if is_symlink {
            text_view(probe.link_target)
        } else {
            None
        },
        metadata: probe.metadata,
        children: Seq::empty(),
        error: None,
    }
}

/// The upper-case form of an ASCII letter; any other character as it is.
pub open spec fn ascii_upper(c: char) -> char {
    if 'a' <= c && c <= 'z' {
        ((c as u8) - 32) as char
    } else {
        c
    }
}

/// The three characters that show one class's permission bits. `mode` holds
/// the read, write and execute bits in its lowest three places; `special`
/// says that the class's set-id or sticky bit is on, shown as `special_char`
/// in place of `x`, in upper case where the execute bit is off.
pub open spec fn triplet_text(mode: u32, special: bool, special_char: char) -> Seq<char> {
    seq![
        if mode & 0o4 != 0 { 'r' } else { '-' },
        if mode & 0o2 != 0 { 'w' } else { '-' },
        if mode & 0o1 != 0 {
            if special { special_char } else { 'x' }
        } else if special {
            ascii_upper(special_char)
        } else {
            '-'
        },
    ]
}

/// The letter that stands for the entry's kind in a permission string.
pub open spec fn kind_char(e: EntryView) -> char {
    if e.is_dir {
        'd'
    } else if e.is_symlink {
        'l'
    } else {
        '-'
    }
}

/// The ten characters of the permission string, such as `drwxr-xr-x`; ten
/// dashes where the entry has no metadata.
pub open spec fn permissions_text(e: EntryView) -> Seq<char> {
    match e.metadata {
        None => Seq::new(10, |i: int| '-'),
        Some(m) => seq![kind_char(e)] + triplet_text((m.mode >> 6) & 0o7, m.mode & 0o4000 != 0, 's')
            + triplet_text((m.mode >> 3) & 0o7, m.mode & 0o2000 != 0, 's') + triplet_text(
            m.mode & 0o7,
            m.mode & 0o1000 != 0,
            't',
        ),
    }
}

/// The size in bytes; zero without metadata.
pub open spec fn size_of(e: EntryView) -> u64 {
    match e.metadata {
        Some(m) => m.len,
        None => 0,
    }
}

/// The time of the last modification, where it is known.
pub open spec fn modified_of(e: EntryView) -> Option<Timestamp> {
    match e.metadata {
        Some(m) => m.modified,
        None => None,
    }
}

/// Whether the entry is a file that someone may execute.
pub open spec fn executable(e: EntryView) -> bool {
    !e.is_dir && e.metadata is Some && e.metadata->0.mode & 0o111 != 0
}

/// The suffix that marks the entry's kind: `/` for a directory, `@` for a
/// link, `*` for an executable file, nothing otherwise.
pub open spec fn indicator_text(e: EntryView) -> Seq<char> {
    if e.is_dir {
        seq!['/']
    } else if e.is_symlink {
        seq!['@']
    } else if executable(e) {
        seq!['*']
    } else {
        Seq::empty()
    }
}

/// The upper-case form of an ASCII letter; any other character as it is.
pub fn to_ascii_upper(c: char) -> (upper: char)
    ensures
        upper == ascii_upper(c),
{
    if 'a' <= c && c <= 'z' {
        ((c as u8) - 32) as char
    } else {
        c
    }
}

/// Renders one class's permission bits as three characters.
pub fn triplet(mode: u32, special: bool, special_char: char) -> (text: String)
    ensures
        text@ == triplet_text(mode, special, special_char),
{
    let r = if mode & 0o4 != 0 { 'r' } else { '-' };
    let w = if mode & 0o2 != 0 { 'w' } else { '-' };
    let x = if mode & 0o1 != 0 {
        if special { special_char } else { 'x' }
    } else if special {
        to_ascii_upper(special_char)
    } else {
        '-'
    };
    let mut text = String::new();
    text.push(r);
    text.push(w);
    text.push(x);
    assert(text@ =~= triplet_text(mode, special, special_char));
    text
}

/// A copy of an optional string.
fn clone_text(text: &Option<String>) -> (copy: Option<String>)
    ensures
        text_view(copy) == text_view(*text),
{
    match text {
        Some(t) => Some(t.clone()),
        None => None,
    }
}

impl Clone for TreeEntry {
    /// A copy of the entry and of everything below it.
    fn clone(&self) -> (copy: TreeEntry)
        ensures
            copy@ == self@,
        decreases self,
    {
        let mut children: Vec<TreeEntry> = Vec::new();
        let mut i: usize = 0;
        while i < self.children.len()
            invariant
                i <= self.children.len(),
                forest_view(children@) == forest_view(self.children@.take(i as int)),
            decreases self.children.len() - i,
        {
            let child = self.children[i].clone();
            proof {
                lemma_forest_view_push(children@, child);
                lemma_forest_view_push(self.children@.take(i as int), self.children@[i as int]);
                assert(self.children@.take(i as int).push(self.children@[i as int])
                    =~= self.children@.take(i as int + 1));
            }
            children.push(child);
            i = i + 1;
        }
        assert(self.children@.take(i as int) =~= self.children@);
        TreeEntry {
            path: self.path.clone(),
            name: self.name.clone(),
            is_dir: self.is_dir,
            is_symlink: self.is_symlink,
            symlink_target: clone_text(&self.symlink_target),
            metadata: self.metadata,
            children,
            error: clone_text(&self.error),
        }
    }
}

impl TreeEntry {
    /// Makes the entry for `path` from what was learned about it. The entry
    /// has no children and no error yet.
    pub fn new(path: String, probe: Probe) -> (entry: TreeEntry)
        ensures
            entry@ == fresh_entry(path@, probe),
            well_formed(entry@),
    {
        let name = match file_name_of(path.as_str()) {
            Some(name) => name,
            None => owned(path.as_str()),
        };
        let is_symlink = match probe.is_symlink {
            Some(b) => b,
            None => false,
        };
        let is_dir = match &probe.metadata {
            Some(m) => m.is_dir,
            None => false,
        };
        let symlink_target = if is_symlink { probe.link_target } else { None };
        let entry = TreeEntry {
            path,
            name,
            is_dir,
            is_symlink,
            symlink_target,
            metadata: probe.metadata,
            children: Vec::new(),
            error: None,
        };
        assert(entry@.children =~= Seq::empty());
        entry
    }

    /// The size in bytes; zero without metadata.
    pub fn size(&self) -> (bytes: u64)
        ensures
            bytes == size_of(self@),
    {
        match &self.metadata {
            Some(m) => m.len,
            None => 0,
        }
    }

    /// The time of the last modification, where it is known.
    pub fn modified(&self) -> (time: Option<Timestamp>)
        ensures
            time == modified_of(self@),
    {
        match &self.metadata {
            Some(m) => m.modified,
            None => None,
        }
    }

    /// The permission string, such as `drwxr-xr-x`.
    pub fn permissions_string(&self) -> (text: String)
        ensures
            text@ == permissions_text(self@),
    {
        let mut text = String::new();
        let mode = match &self.metadata {
            Some(m) => m.mode,
            None => {
                let mut i: usize = 0;
                while i < 10
                    invariant
                        i <= 10,
                        text@ == Seq::new(i as nat, |j: int| '-'),
                    decreases 10 - i,
                {
                    text.push('-');
                    i = i + 1;
                    assert(text@ =~= Seq::new(i as nat, |j: int| '-'));
                }
                return text;
            },
        };
        let file_type = if self.is_dir {
            'd'
        } else if self.is_symlink {
            'l'
        } else {
            '-'
        };
        let user = triplet((mode >> 6) & 0o7, mode & 0o4000 != 0, 's');
        let group = triplet((mode >> 3) & 0o7, mode & 0o2000 != 0, 's');
        let other = triplet(mode & 0o7, mode & 0o1000 != 0, 't');
        text.push(file_type);
        text.append(user.as_str());
        text.append(group.as_str());
        text.append(other.as_str());
        assert(text@ =~= permissions_text(self@));
        text
    }

    /// Tells whether this is a file that someone may execute.
    pub fn is_executable(&self) -> (yes: bool)
        ensures
            yes == executable(self@),
    {
        if self.is_dir {
            return false;
        }
        match &self.metadata {
            Some(m) => m.mode & 0o111 != 0,
            None => false,
        }
    }

    /// The suffix that marks the entry's kind.
    pub fn type_indicator(&self) -> (mark: &'static str)
        ensures
            mark@ == indicator_text(self@),
    {
        proof {
            reveal_strlit("/");
            reveal_strlit("@");
            reveal_strlit("*");
            reveal_strlit("");
        }
        if self.is_dir {
            let mark = "/";
            assert(mark@ =~= seq!['/']);
            mark
        } else if self.is_symlink {
            let mark = "@";
            assert(mark@ =~= seq!['@']);
            mark
        } else if self.is_executable() {
            let mark = "*";
            assert(mark@ =~= seq!['*']);
            mark
        } else {
            let mark = "";
            assert(mark@ =~= Seq::<char>::empty());
            mark
        }
    }
}

/// The choices that decide which entries a traversal keeps, and in what
/// order.
#[derive(Debug, Clone)]
pub struct TreeConfig {
    pub show_hidden: bool,
    pub dirs_only: bool,
    pub max_depth: Option<usize>,
    pub follow_symlinks: bool,
    pub full_path: bool,
    pub filter: Filter,
    pub sort_key: SortKey,
    pub sort_reverse: bool,
    pub dirs_first: bool,
}

/// The model of a `TreeConfig`.
pub ghost struct ConfigView {
    pub show_hidden: bool,
    pub dirs_only: bool,
    pub max_depth: Option<usize>,
    pub follow_symlinks: bool,
    pub full_path: bool,
    pub filter: FilterView,
    pub sort_key: SortKey,
    pub sort_reverse: bool,
    pub dirs_first: bool,
}

impl View for TreeConfig {
    type V = ConfigView;

    open spec fn view(&self) -> ConfigView {
        ConfigView {
            show_hidden: self.show_hidden,
            dirs_only: self.dirs_only,
            max_depth: self.max_depth,
            follow_symlinks: self.follow_symlinks,
            full_path: self.full_path,
            filter: self.filter@,
            sort_key: self.sort_key,
            sort_reverse: self.sort_reverse,
            dirs_first: self.dirs_first,
        }
    }
}

impl Default for TreeConfig {
    fn default() -> (config: TreeConfig)
        ensures
            !config@.show_hidden,
            !config@.dirs_only,
            config@.max_depth is None,
            !config@.follow_symlinks,
            !config@.full_path,
            config@.filter.include_texts.len() == 0,
            config@.filter.exclude_texts.len() == 0,
            !config@.filter.ignore_case,
            config@.sort_key == SortKey::Name,
            !config@.sort_reverse,
            !config@.dirs_first,
    {
        TreeConfig {
            show_hidden: false,
            dirs_only: false,
            max_depth: None,
            follow_symlinks: false,
            full_path: false,
            filter: Filter::new(),
            sort_key: SortKey::Name,
            sort_reverse: false,
            dirs_first: false,
        }
    }
}

/// How many directories and files a traversal has met.
#[derive(Debug, Clone, Copy)]
pub struct TreeStats {
    pub directories: usize,
    pub files: usize,
}

impl Default for TreeStats {
    fn default() -> (stats: TreeStats)
        ensures
            stats.directories == 0,
            stats.files == 0,
    {
        TreeStats { directories: 0, files: 0 }
    }
}

} // verus!
