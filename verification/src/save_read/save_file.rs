//! Items related to the profile-specific XML save files from the game
use vstd::prelude::*;

use crate::save_read::document::{
    attribute, attribute_is, child_of_type, find_child, first_where, is_element_of_type,
    lemma_first_where, parse_xml, xml_parse, NodeView, SaveDocument,
};
use crate::text::{
    char_vecs, chars_to_string, lemma_split_char_concat, lemma_split_on_len, split_on,
    split_on_chars, str_chars,
};

verus! {

/// Reasons [Computer::try_new] may fail
#[derive(Debug, Clone, Copy, PartialEq, Eq, Structural)]
pub enum ComputerError {
    /// No computer element matches the strategy.
    NotFound,
    /// The given node is not a computer element.
    NotAComputer,
}

/// Strategies for locating a [Computer] within an XML save file
#[derive(Debug, Clone)]
pub enum ComputerFindStrategy<'b> {
    /// The node at this position of the document, which must be a computer
    /// element (whether it is the computer wanted cannot be checked).
    SpecificNode(usize),
    /// Locate the first encountered computer element with a matching IP address
    ByIp(&'b str),
    /// Locate the first encountered computer element with a matching name
    ByName(&'b str),
    /// Locate the first encountered computer element with a matching ID
    ById(&'b str),
}

/// A strategy as plain values.
pub enum StrategyView {
    SpecificNode(usize),
    ByIp(Seq<char>),
    ByName(Seq<char>),
    ById(Seq<char>),
}

impl<'b> View for ComputerFindStrategy<'b> {
    type V = StrategyView;

    open spec fn view(&self) -> StrategyView {
        match self {
            ComputerFindStrategy::SpecificNode(n) => StrategyView::SpecificNode(*n),
            ComputerFindStrategy::ByIp(s) => StrategyView::ByIp(s@),
            ComputerFindStrategy::ByName(s) => StrategyView::ByName(s@),
            ComputerFindStrategy::ById(s) => StrategyView::ById(s@),
        }
    }
}

impl<'b> Default for ComputerFindStrategy<'b> {
    /// The player's own computer: the computer element whose ID is `playerComp`.
    fn default() -> (res: Self)
        ensures
            res@ == StrategyView::ById("playerComp"@),
    {
        ComputerFindStrategy::ById("playerComp")
    }
}

/// Whether the node at `i` is a computer element.
pub open spec fn is_computer(nodes: Seq<NodeView>, i: nat) -> bool {
    i < nodes.len() && is_element_of_type(nodes[i as int], "computer"@)
}

/// Whether the node at `i` is a computer element that the strategy selects.
pub open spec fn strategy_matches(nodes: Seq<NodeView>, strategy: StrategyView, i: nat) -> bool {
    &&& is_computer(nodes, i)
    &&& match strategy {
        StrategyView::SpecificNode(target) => i == target,
        StrategyView::ByIp(ip) => attribute(nodes[i as int].attributes, "ip"@) == Some(ip),
        StrategyView::ByName(name) => attribute(nodes[i as int].attributes, "name"@) == Some(
            name,
        ),
        StrategyView::ById(id) => attribute(nodes[i as int].attributes, "id"@) == Some(id),
    }
}

/// The computer a strategy locates: the given node when it is a computer
/// element, otherwise the first computer element in document order that the
/// strategy selects.
pub open spec fn locate_computer(nodes: Seq<NodeView>, strategy: StrategyView) -> Result<
    usize,
    ComputerError,
> {
    match strategy {
        StrategyView::SpecificNode(target) => {
            if is_computer(nodes, target as nat) {
                Ok(target)
            } else {
                Err(ComputerError::NotAComputer)
            }
        },
        _ => match first_where(nodes.len(), 0, |i: nat| strategy_matches(nodes, strategy, i)) {
            Some(i) => Ok(i as usize),
            None => Err(ComputerError::NotFound),
        },
    }
}

impl<'b> ComputerFindStrategy<'b> {
    ///Determine whether the given `node` matches what we are looking for based on this strategy
    pub fn matches(&self, doc: &SaveDocument, node: usize) -> (res: bool)
        ensures
            res == strategy_matches(doc@, self@, node as nat),
    {
        if node >= doc.nodes.len() {
            return false;
        }
        let n = &doc.nodes[node];
        assert(doc@[node as int] == n@);
        let computer_tag = "computer".to_owned();
        if !(n.element && n.tag_name == computer_tag) {
            return false;
        }
        match self {
            ComputerFindStrategy::SpecificNode(target) => node == *target,
            ComputerFindStrategy::ByIp(ip) => attribute_is(n, &"ip".to_owned(), &(*ip).to_owned()),
            ComputerFindStrategy::ByName(name) => attribute_is(
                n,
                &"name".to_owned(),
                &(*name).to_owned(),
            ),
            ComputerFindStrategy::ById(id) => attribute_is(n, &"id".to_owned(), &(*id).to_owned()),
        }
    }
}

/// `path` with every backslash turned into a forward slash.
pub open spec fn normalize_separators(path: Seq<char>) -> Seq<char> {
    path.map_values(
        |c: char|
            if c == '\\' {
                '/'
            } else {
                c
            },
    )
}

/// The components of `path`: the pieces between its separators, where `/` and
/// `\` both separate.
pub open spec fn path_parts(path: Seq<char>) -> Seq<Seq<char>> {
    split_on(normalize_separators(path), seq!['/'])
}

/// Whether a path component is skipped: empty, `.` or `..`.
pub open spec fn is_ignored_part(part: Seq<char>) -> bool {
    part.len() == 0 || part == seq!['.'] || part == seq!['.', '.']
}

/// The root folder of a computer: within the computer's first `filesystem`
/// child, the first `folder` child named `/`.
pub open spec fn spec_rootdir(nodes: Seq<NodeView>, computer: usize) -> Option<usize> {
    match child_of_type(nodes, computer, "filesystem"@, None) {
        None => None,
        Some(fs) => match child_of_type(nodes, fs as usize, "folder"@, Some("/"@)) {
            Some(root) => Some(root as usize),
            None => None,
        },
    }
}

/// The folder reached from `current` by following the directory components
/// `dirs`: skipped components are passed over, every other one names the
/// first child folder of that name.
pub open spec fn walk_folders(nodes: Seq<NodeView>, current: usize, dirs: Seq<Seq<char>>) -> Option<
    usize,
>
    decreases dirs.len(),
{
    if dirs.len() == 0 {
        Some(current)
    } else if is_ignored_part(dirs[0]) {
        walk_folders(nodes, current, dirs.drop_first())
    } else {
        match child_of_type(nodes, current, "folder"@, Some(dirs[0])) {
            None => None,
            Some(folder) => walk_folders(nodes, folder as usize, dirs.drop_first()),
        }
    }
}

/// The file element at `path` on the computer at `computer`: the last path
/// component names a `file` child of the folder the others lead to from the
/// root folder.
pub open spec fn spec_file(nodes: Seq<NodeView>, computer: usize, path: Seq<char>) -> Option<
    usize,
> {
    let parts = path_parts(path);
    match spec_rootdir(nodes, computer) {
        None => None,
        Some(root) => match walk_folders(nodes, root, parts.drop_last()) {
            None => None,
            Some(dir) => match child_of_type(nodes, dir, "file"@, Some(parts.last())) {
                Some(f) => Some(f as usize),
                None => None,
            },
        },
    }
}

/// The text of the file element at `path`, when there is one.
pub open spec fn spec_file_content(nodes: Seq<NodeView>, computer: usize, path: Seq<char>) -> Option<
    Seq<char>,
> {
    match spec_file(nodes, computer, path) {
        Some(f) => nodes[f as int].text,
        None => None,
    }
}

/// A `computer` node in an XML save file. Represents one in-game computer.
///
/// This is a node of a [SaveDocument] that is known to be an element with the
/// tag name "computer".
pub struct Computer<'a> {
    doc: &'a SaveDocument,
    node: usize,
}

impl<'a> Computer<'a> {
    /// The document the computer belongs to.
    pub closed spec fn document(&self) -> Seq<NodeView> {
        self.doc@
    }

    /// The position of the computer element in the document.
    pub closed spec fn node_index(&self) -> usize {
        self.node
    }

    /// Try to find a new Computer from the specified `save_file` using a particular `strategy`
    pub fn try_new(save_file: &'a SaveDocument, strategy: ComputerFindStrategy<'_>) -> (res:
        Result<Self, ComputerError>)
        ensures
            match res {
                Ok(c) => {
                    &&& c.document() == save_file@
                    &&& locate_computer(save_file@, strategy@) == Ok::<usize, ComputerError>(
                        c.node_index(),
                    )
                },
                Err(e) => locate_computer(save_file@, strategy@) == Err::<usize, ComputerError>(
                    e,
                ),
            },
    {
        match strategy {
            ComputerFindStrategy::SpecificNode(node) => {
                if strategy.matches(save_file, node) {
                    Ok(Computer { doc: save_file, node })
                } else {
                    Err(ComputerError::NotAComputer)
                }
            },
            _ => {
                let ghost nodes = save_file@;
                let ghost p = |i: nat| strategy_matches(nodes, strategy@, i);
                let n = save_file.nodes.len();
                for i in 0..n
                    invariant
                        n == save_file.nodes.len(),
                        nodes == save_file@,
                        p == (|i: nat| strategy_matches(nodes, strategy@, i)),
                        !(strategy@ is SpecificNode),
                        first_where(n as nat, 0, p) == first_where(n as nat, i as nat, p),
                {
                    if strategy.matches(save_file, i) {
                        return Ok(Computer { doc: save_file, node: i });
                    }
                }
                Err(ComputerError::NotFound)
            },
        }
    }

    /// Get the position of the computer element in its document
    pub fn inner(&self) -> (res: usize)
        ensures
            res == self.node_index(),
    {
        self.node
    }

    /// Take the position of the computer element in its document
    pub fn into_inner(self) -> (res: usize)
        ensures
            res == self.node_index(),
    {
        self.node
    }

    /// Get the root "folder" element of this Computer's filesystem element
    fn rootdir(&self) -> (res: Option<usize>)
        ensures
            res == spec_rootdir(self.document(), self.node_index()),
    {
        let filesystem = match find_child(self.doc, self.node, &"filesystem".to_owned(), None) {
            Some(fs) => fs,
            None => {
                return None;
            },
        };
        find_child(self.doc, filesystem, &"folder".to_owned(), Some(&"/".to_owned()))
    }

    /// Get a particular file on this Computer
    ///
    /// Returns the position of the file element if a file matching the given
    /// `path` can be found on this Computer, or None if no file matching the
    /// given `path` can be found
    ///
    /// This function's treatment of paths may not exactly match treatment of paths
    /// by the actual game, or your operating system's treatment of paths:
    ///
    /// - The path is always treates as absolute - this can be thought of as
    ///   though a "/" is prepended to the path before looking for the file.
    /// - Forward slashes "/" and backslashes "\\" are treated identically
    /// - References to the current directory (".") and parent directory ("..")
    ///   are ignored entirely
    /// - Contiguous seperators (e.g. "//") are treated the same as a single seperator ("/")
    /// - Items are case-sensitive ("This_File_Name" is different from "this_file_name")
    pub fn file(&self, path: &str) -> (res: Option<usize>)
        ensures
            res == spec_file(self.document(), self.node_index(), path@),
    {
        let parts = split_path(path);
        let ghost all = path_parts(path@);
        proof {
            lemma_split_on_len(normalize_separators(path@), seq!['/']);
        }
        let last = parts.len() - 1;
        assert(all.last() == parts@[last as int]@);
        let filename = chars_to_string(&parts[last]);
        let root = match self.rootdir() {
            Some(r) => r,
            None => {
                return None;
            },
        };
        let ghost dirs = all.drop_last();
        let folder_tag = "folder".to_owned();
        let mut current = root;
        assert(dirs.skip(0) =~= dirs);
        for k in 0..last
            invariant
                last + 1 == parts.len(),
                all == char_vecs(parts@),
                dirs == all.drop_last(),
                folder_tag@ == "folder"@,
                all == path_parts(path@),
                spec_rootdir(self.document(), self.node_index()) == Some(root),
                walk_folders(self.document(), root, dirs) == walk_folders(
                    self.document(),
                    current,
                    dirs.skip(k as int),
                ),
        {
            let part = &parts[k];
            let ghost rest = dirs.skip(k as int);
            assert(rest[0] == part@);
            assert(rest.drop_first() =~= dirs.skip(k + 1));
            if !is_ignored(part) {
                let name = chars_to_string(part);
                match find_child(self.doc, current, &folder_tag, Some(&name)) {
                    Some(folder) => {
                        current = folder;
                    },
                    None => {
                        return None;
                    },
                }
            }
        }
        assert(dirs.skip(last as int) =~= Seq::<Seq<char>>::empty());
        find_child(self.doc, current, &"file".to_owned(), Some(&filename))
    }

    /// Get the content of a particular file on this Computer
    ///
    /// The text of the file element [Computer::file] finds; see there for
    /// how paths are treated.
    pub fn file_content(&self, path: &str) -> (res: Option<String>)
        ensures
            match res {
                Some(t) => spec_file_content(self.document(), self.node_index(), path@) == Some(
                    t@,
                ),
                None => spec_file_content(self.document(), self.node_index(), path@) is None,
            },
    {
        match self.file(path) {
            None => None,
            Some(f) => {
                proof {
                    let nodes = self.document();
                    let parts = path_parts(path@);
                    if let Some(root) = spec_rootdir(nodes, self.node_index()) {
                        if let Some(dir) = walk_folders(nodes, root, parts.drop_last()) {
                            lemma_first_where(
                                nodes.len(),
                                0,
                                |i: nat|
                                    crate::save_read::document::is_child_of_type(
                                        nodes,
                                        dir,
                                        "file"@,
                                        Some(parts.last()),
                                        i,
                                    ),
                            );
                        }
                    }
                }
                let node = &self.doc.nodes[f];
                assert(self.document()[f as int] == node@);
                match &node.text {
                    Some(t) => Some(t.clone()),
                    None => None,
                }
            },
        }
    }
}

/// The components of `path`, where `/` and `\` both separate.
fn split_path(path: &str) -> (res: Vec<Vec<char>>)
    ensures
        char_vecs(res@) == path_parts(path@),
{
    let chars = str_chars(path);
    let mut normalized: Vec<char> = Vec::new();
    for i in 0..chars.len()
        invariant
            normalized@ == normalize_separators(chars@).take(i as int),
            chars@ == path@,
    {
        let c = chars[i];
        normalized.push(
            if c == '\\' {
                '/'
            } else {
                c
            },
        );
        assert(normalized@ =~= normalize_separators(chars@).take(i + 1));
    }
    assert(normalized@ =~= normalize_separators(path@));
    let mut slash: Vec<char> = Vec::new();
    slash.push('/');
    assert(slash@ =~= seq!['/']);
    split_on_chars(&normalized, &slash)
}

/// Whether a path component is skipped: empty, `.` or `..`.
fn is_ignored(part: &Vec<char>) -> (res: bool)
    ensures
        res == is_ignored_part(part@),
{
    if part.len() == 0 {
        true
    } else if part.len() == 1 {
        assert(part@ == seq!['.'] <==> part@[0] == '.') by {
            if part@[0] == '.' {
                assert(part@ =~= seq!['.']);
            }
        }
        part[0] == '.'
    } else if part.len() == 2 {
        assert(part@ == seq!['.', '.'] <==> part@[0] == '.' && part@[1] == '.') by {
            if part@[0] == '.' && part@[1] == '.' {
                assert(part@ =~= seq!['.', '.']);
            }
        }
        part[0] == '.' && part[1] == '.'
    } else {
        false
    }
}

/// Reasons reading a file from a save file can fail
#[derive(Debug)]
pub enum ReadFileFromSaveError {
    /// The save file is not XML.
    ParseError(roxmltree::Error),
    /// The target computer was not found.
    ComputerError(ComputerError),
    /// The target computer has no file with the given path.
    FileNotFound,
}

/// What a failure to read a file from a save file says, as plain values.
pub enum ReadFailure {
    Parse,
    Computer(ComputerError),
    FileNotFound,
}

impl View for ReadFileFromSaveError {
    type V = ReadFailure;

    open spec fn view(&self) -> ReadFailure {
        match self {
            ReadFileFromSaveError::ParseError(_) => ReadFailure::Parse,
            ReadFileFromSaveError::ComputerError(e) => ReadFailure::Computer(*e),
            ReadFileFromSaveError::FileNotFound => ReadFailure::FileNotFound,
        }
    }
}

/// The content of the file at `target_path` on the computer the strategy
/// locates in the document `nodes`.
pub open spec fn spec_read_file(nodes: Seq<NodeView>, strategy: StrategyView, target_path: Seq<
    char,
>) -> Result<Seq<char>, ReadFailure> {
    match locate_computer(nodes, strategy) {
        Err(e) => Err(ReadFailure::Computer(e)),
        Ok(computer) => match spec_file_content(nodes, computer, target_path) {
            Some(text) => Ok(text),
            None => Err(ReadFailure::FileNotFound),
        },
    }
}

/// Read the content of a file that belongs to some computer within the parsed
/// save file `save_file`.
pub fn read_file_from_document(
    save_file: &SaveDocument,
    computer_strategy: ComputerFindStrategy,
    target_path: &str,
) -> (res: Result<String, ReadFileFromSaveError>)
    ensures
        match res {
            Ok(t) => spec_read_file(save_file@, computer_strategy@, target_path@) == Ok::<
                Seq<char>,
                ReadFailure,
            >(t@),
            Err(e) => spec_read_file(save_file@, computer_strategy@, target_path@) == Err::<
                Seq<char>,
                ReadFailure,
            >(e@),
        },
{
    let computer = match Computer::try_new(save_file, computer_strategy) {
        Ok(c) => c,
        Err(e) => {
            return Err(ReadFileFromSaveError::ComputerError(e));
        },
    };
    match computer.file_content(target_path) {
        Some(text) => Ok(text),
        None => Err(ReadFileFromSaveError::FileNotFound),
    }
}

/// Read the content of a file that belongs to some computer within the specified save file and return it as a string
///
/// `save_file` is the string content of one of the game's profile-specific XML save files
/// `computer_strategy` is a [ComputerFindStrategy] defining how to locate the computer which the file is located on
/// `target_path` is the path to the file on the target computer
pub fn read_file_from_save(
    save_file: &str,
    computer_strategy: ComputerFindStrategy,
    target_path: &str,
) -> (res: Result<String, ReadFileFromSaveError>)
    ensures
        match xml_parse(save_file@) {
            None => res matches Err(ReadFileFromSaveError::ParseError(_)),
            Some(nodes) => match res {
                Ok(t) => spec_read_file(nodes, computer_strategy@, target_path@) == Ok::<
                    Seq<char>,
                    ReadFailure,
                >(t@),
                Err(e) => spec_read_file(nodes, computer_strategy@, target_path@) == Err::<
                    Seq<char>,
                    ReadFailure,
                >(e@),
            },
        },
{
    let parsed = match parse_xml(save_file) {
        Ok(d) => d,
        Err(e) => {
            return Err(ReadFileFromSaveError::ParseError(e));
        },
    };
    read_file_from_document(&parsed, computer_strategy, target_path)
}

} // verus!


verus! {

// ---------------------------------------------------------------------------
// Laws of path lookup
// ---------------------------------------------------------------------------
/// Whether `c` separates path components.
pub open spec fn is_path_separator(c: char) -> bool {
    c == '/' || c == '\\'
}

/// Forward slashes and backslashes are treated identically: two paths that
/// differ only in which separator they use find the same file.
pub proof fn lemma_file_separators_interchangeable(
    nodes: Seq<NodeView>,
    computer: usize,
    path1: Seq<char>,
    path2: Seq<char>,
)
    requires
        path1.len() == path2.len(),
        forall|i: int|
            0 <= i < path1.len() ==> path1[i] == path2[i] || (is_path_separator(path1[i])
                && is_path_separator(path2[i])),
    ensures
        spec_file(nodes, computer, path1) == spec_file(nodes, computer, path2),
{
    assert(normalize_separators(path1) =~= normalize_separators(path2));
}

/// Skipping a skipped component anywhere among the directory components
/// changes nothing.
proof fn lemma_walk_skips_ignored(
    nodes: Seq<NodeView>,
    current: usize,
    before: Seq<Seq<char>>,
    x: Seq<char>,
    after: Seq<Seq<char>>,
)
    requires
        is_ignored_part(x),
    ensures
        walk_folders(nodes, current, before + seq![x] + after) == walk_folders(
            nodes,
            current,
            before + after,
        ),
    decreases before.len(),
{
    if before.len() == 0 {
        assert(before + seq![x] + after =~= seq![x] + after);
        assert((seq![x] + after).drop_first() =~= after);
        assert(before + after =~= after);
    } else {
        let with = before + seq![x] + after;
        let without = before + after;
        assert(with[0] == before[0] && without[0] == before[0]);
        assert(with.drop_first() =~= before.drop_first() + seq![x] + after);
        assert(without.drop_first() =~= before.drop_first() + after);
        if is_ignored_part(before[0]) {
            lemma_walk_skips_ignored(nodes, current, before.drop_first(), x, after);
        } else {
            match child_of_type(nodes, current, "folder"@, Some(before[0])) {
                None => {},
                Some(folder) => {
                    lemma_walk_skips_ignored(nodes, folder as usize, before.drop_first(), x, after);
                },
            }
        }
    }
}

/// Skipping any number of skipped components anywhere among the directory
/// components changes nothing.
proof fn lemma_walk_skips_all_ignored(
    nodes: Seq<NodeView>,
    current: usize,
    before: Seq<Seq<char>>,
    skipped: Seq<Seq<char>>,
    after: Seq<Seq<char>>,
)
    requires
        forall|i: int| 0 <= i < skipped.len() ==> is_ignored_part(#[trigger] skipped[i]),
    ensures
        walk_folders(nodes, current, before + skipped + after) == walk_folders(
            nodes,
            current,
            before + after,
        ),
    decreases skipped.len(),
{
    if skipped.len() == 0 {
        assert(before + skipped + after =~= before + after);
    } else {
        let x = skipped[0];
        let more = skipped.drop_first();
        assert(is_ignored_part(x));
        lemma_walk_skips_ignored(nodes, current, before, x, more + after);
        assert(before + skipped + after =~= before + seq![x] + (more + after));
        assert(before + (more + after) =~= before + more + after);
        assert forall|i: int| 0 <= i < more.len() implies is_ignored_part(#[trigger] more[i]) by {
            assert(more[i] == skipped[i + 1]);
        }
        lemma_walk_skips_all_ignored(nodes, current, before, more, after);
    }
}

/// Separators distribute over the pieces of a path.
proof fn lemma_normalize_concat(a: Seq<char>, b: Seq<char>)
    ensures
        normalize_separators(a + b) == normalize_separators(a) + normalize_separators(b),
{
    assert(normalize_separators(a + b) =~= normalize_separators(a) + normalize_separators(b));
}

/// The components of paths joined by a separator are those of the pieces.
proof fn lemma_parts_joined(a: Seq<char>, x: Seq<char>, rest: Seq<char>)
    ensures
        path_parts(a + seq!['/'] + x + seq!['/'] + rest) == path_parts(a) + path_parts(x)
            + path_parts(rest),
        path_parts(a + seq!['/'] + rest) == path_parts(a) + path_parts(rest),
        path_parts(x + seq!['/'] + rest) == path_parts(x) + path_parts(rest),
{
    let slash = seq!['/'];
    assert(normalize_separators(slash) =~= slash);
    let na = normalize_separators(a);
    let nx = normalize_separators(x);
    let nr = normalize_separators(rest);
    lemma_normalize_concat(a + slash + x + slash, rest);
    lemma_normalize_concat(a + slash + x, slash);
    lemma_normalize_concat(a + slash, x);
    lemma_normalize_concat(a, slash);
    lemma_normalize_concat(a + slash, rest);
    lemma_normalize_concat(x + slash, rest);
    lemma_normalize_concat(x, slash);
    assert(normalize_separators(a + slash + x + slash + rest) =~= na + slash + (nx + slash + nr));
    lemma_split_char_concat(na, '/', nx + slash + nr);
    lemma_split_char_concat(nx, '/', nr);
    assert(normalize_separators(a + slash + rest) =~= na + slash + nr);
    lemma_split_char_concat(na, '/', nr);
    assert(normalize_separators(x + slash + rest) =~= nx + slash + nr);
}

/// Whether every component of `x` is skipped: `x` is made only of
/// separators, `.` and `..`.
pub open spec fn only_skipped_parts(x: Seq<char>) -> bool {
    forall|i: int| 0 <= i < path_parts(x).len() ==> is_ignored_part(#[trigger] path_parts(x)[i])
}

/// Empty components, `.` and `..` are ignored entirely: removing any run of
/// them (a piece `x` made only of separators, `.` and `..`) from between two
/// separators, or from the front of the path, finds the same file. In
/// particular contiguous separators act as one, and the path is always
/// treated as absolute (leading separators change nothing).
pub proof fn lemma_file_ignores_skipped_components(
    nodes: Seq<NodeView>,
    computer: usize,
    a: Seq<char>,
    x: Seq<char>,
    rest: Seq<char>,
)
    requires
        only_skipped_parts(x),
    ensures
        spec_file(nodes, computer, a + seq!['/'] + x + seq!['/'] + rest) == spec_file(
            nodes,
            computer,
            a + seq!['/'] + rest,
        ),
        spec_file(nodes, computer, x + seq!['/'] + rest) == spec_file(nodes, computer, rest),
{
    lemma_parts_joined(a, x, rest);
    let pa = path_parts(a);
    let px = path_parts(x);
    let pr = path_parts(rest);
    lemma_split_on_len(normalize_separators(rest), seq!['/']);
    let with = pa + px + pr;
    let without = pa + pr;
    assert(with.drop_last() =~= pa + px + pr.drop_last());
    assert(without.drop_last() =~= pa + pr.drop_last());
    assert(with.last() == pr.last() && without.last() == pr.last());
    assert((px + pr).drop_last() =~= Seq::<Seq<char>>::empty() + px + pr.drop_last());
    assert(Seq::<Seq<char>>::empty() + pr.drop_last() =~= pr.drop_last());
    assert((px + pr).last() == pr.last());
    if let Some(root) = spec_rootdir(nodes, computer) {
        lemma_walk_skips_all_ignored(nodes, root, pa, px, pr.drop_last());
        lemma_walk_skips_all_ignored(nodes, root, Seq::empty(), px, pr.drop_last());
    }
}

/// Whether the node at `i` carries the attribute a search by IP, name or ID
/// asks for.
pub open spec fn carries_attribute(nodes: Seq<NodeView>, strategy: StrategyView, i: int) -> bool {
    match strategy {
        StrategyView::SpecificNode(_) => true,
        StrategyView::ByIp(ip) => attribute(nodes[i].attributes, "ip"@) == Some(ip),
        StrategyView::ByName(name) => attribute(nodes[i].attributes, "name"@) == Some(name),
        StrategyView::ById(id) => attribute(nodes[i].attributes, "id"@) == Some(id),
    }
}

/// A computer is only ever found at an element tagged `computer`. A given node
/// is taken exactly when it is such an element (otherwise `NotAComputer`); a
/// search by IP, name or ID gives the first such element in document order
/// whose attribute matches, and `NotFound` exactly when there is none.
pub proof fn lemma_locate_computer(nodes: Seq<NodeView>, strategy: StrategyView)
    requires
        nodes.len() <= usize::MAX,
    ensures
        locate_computer(nodes, strategy) matches Ok(i) ==> {
            &&& (i as int) < nodes.len()
            &&& nodes[i as int].element
            &&& nodes[i as int].tag_name == "computer"@
            &&& carries_attribute(nodes, strategy, i as int)
            &&& strategy matches StrategyView::SpecificNode(target) ==> i == target
            &&& !(strategy is SpecificNode) ==> forall|j: int|
                0 <= j < i ==> !(nodes[j].element && nodes[j].tag_name == "computer"@
                    && #[trigger] carries_attribute(nodes, strategy, j))
        },
        strategy matches StrategyView::SpecificNode(target) ==> (locate_computer(nodes, strategy)
            is Err <==> !((target as int) < nodes.len() && nodes[target as int].element
            && nodes[target as int].tag_name == "computer"@)),
        locate_computer(nodes, strategy) matches Err(e) ==> (e == ComputerError::NotAComputer
            <==> strategy is SpecificNode),
        !(strategy is SpecificNode) ==> (locate_computer(nodes, strategy) is Err <==> forall|j: int|
            0 <= j < nodes.len() ==> !(nodes[j].element && nodes[j].tag_name == "computer"@
                && #[trigger] carries_attribute(nodes, strategy, j))),
{
    let p = |i: nat| strategy_matches(nodes, strategy, i);
    lemma_first_where(nodes.len(), 0, p);
    if !(strategy is SpecificNode) {
        assert forall|j: int|
            0 <= j < nodes.len() && nodes[j].element && nodes[j].tag_name == "computer"@
                && #[trigger] carries_attribute(nodes, strategy, j) implies p(j as nat) by {}
        if let Some(k) = first_where(nodes.len(), 0, p) {
            assert(p(k));
            assert((k as usize) as nat == k);
        } else {
            assert forall|j: int|
                0 <= j < nodes.len() implies !(nodes[j].element && nodes[j].tag_name == "computer"@
                    && #[trigger] carries_attribute(nodes, strategy, j)) by {
                assert(!p(j as nat));
            }
        }
        if let Ok(i) = locate_computer(nodes, strategy) {
            assert forall|j: int|
                0 <= j < i implies !(nodes[j].element && nodes[j].tag_name == "computer"@
                    && #[trigger] carries_attribute(nodes, strategy, j)) by {
                assert(!p(j as nat));
            }
        }
    }
}

/// What is read is the whole text of the file element the path leads to, as
/// it stands: a computer the strategy cannot locate gives that error, and a
/// path that leads to no file, or to a file element without text, gives
/// `FileNotFound`.
pub proof fn lemma_read_file_is_file_text(
    nodes: Seq<NodeView>,
    strategy: StrategyView,
    path: Seq<char>,
)
    ensures
        match locate_computer(nodes, strategy) {
            Err(e) => spec_read_file(nodes, strategy, path) == Err::<Seq<char>, ReadFailure>(
                ReadFailure::Computer(e),
            ),
            Ok(c) => match spec_file(nodes, c, path) {
                None => spec_read_file(nodes, strategy, path) == Err::<Seq<char>, ReadFailure>(
                    ReadFailure::FileNotFound,
                ),
                Some(f) => match nodes[f as int].text {
                    Some(t) => spec_read_file(nodes, strategy, path) == Ok::<
                        Seq<char>,
                        ReadFailure,
                    >(t),
                    None => spec_read_file(nodes, strategy, path) == Err::<
                        Seq<char>,
                        ReadFailure,
                    >(ReadFailure::FileNotFound),
                },
            },
        },
{
}

/// The components among `dirs` that name a folder (those not skipped), in order.
pub open spec fn named_parts(dirs: Seq<Seq<char>>) -> Seq<Seq<char>>
    decreases dirs.len(),
{
    if dirs.len() == 0 {
        Seq::empty()
    } else if is_ignored_part(dirs[0]) {
        named_parts(dirs.drop_first())
    } else {
        seq![dirs[0]] + named_parts(dirs.drop_first())
    }
}

/// Whether the node at `child` is a child of the node at `parent` that is an
/// element tagged `tag` whose `name` attribute is `name`.
pub open spec fn named_child(
    nodes: Seq<NodeView>,
    parent: usize,
    child: usize,
    tag: Seq<char>,
    name: Seq<char>,
) -> bool {
    &&& (child as int) < nodes.len()
    &&& nodes[child as int].parent == Some(parent)
    &&& nodes[child as int].element
    &&& nodes[child as int].tag_name == tag
    &&& attribute(nodes[child as int].attributes, "name"@) == Some(name)
}

/// Whether the node at `child` is the first such child in document order.
pub open spec fn first_named_child(
    nodes: Seq<NodeView>,
    parent: usize,
    child: usize,
    tag: Seq<char>,
    name: Seq<char>,
) -> bool {
    &&& named_child(nodes, parent, child, tag, name)
    &&& forall|g: usize| g < child ==> !#[trigger] named_child(nodes, parent, g, tag, name)
}

/// Whether `chain` goes down from `start` through folders named `names`: each
/// node after the first is the first folder child of the one before it named
/// by the matching name.
pub open spec fn is_folder_chain(
    nodes: Seq<NodeView>,
    start: usize,
    names: Seq<Seq<char>>,
    chain: Seq<usize>,
) -> bool {
    &&& chain.len() == names.len() + 1
    &&& chain[0] == start
    &&& forall|j: int|
        1 <= j < chain.len() ==> first_named_child(
            nodes,
            chain[j - 1],
            #[trigger] chain[j],
            "folder"@,
            names[j - 1],
        )
}

/// The child lookup by tag and name finds exactly the first such child.
proof fn lemma_child_of_type_first(
    nodes: Seq<NodeView>,
    parent: usize,
    tag: Seq<char>,
    name: Seq<char>,
    c: usize,
)
    requires
        nodes.len() <= usize::MAX,
    ensures
        child_of_type(nodes, parent, tag, Some(name)) == Some(c as nat) <==> first_named_child(
            nodes,
            parent,
            c,
            tag,
            name,
        ),
{
    let p = |i: nat| crate::save_read::document::is_child_of_type(nodes, parent, tag, Some(name), i);
    lemma_first_where(nodes.len(), 0, p);
    assert forall|g: usize| #[trigger] named_child(nodes, parent, g, tag, name) <==> p(g as nat) by {}
    if first_named_child(nodes, parent, c, tag, name) {
        assert(p(c as nat));
        if let Some(i) = first_where(nodes.len(), 0, p) {
            if i < c {
                assert(p(i));
                assert(named_child(nodes, parent, i as usize, tag, name));
            }
        }
    }
}

/// The walk reaches a folder only down a chain of folders named by the
/// components that are not skipped.
proof fn lemma_walk_chain(nodes: Seq<NodeView>, current: usize, dirs: Seq<Seq<char>>) -> (chain:
    Seq<usize>)
    requires
        nodes.len() <= usize::MAX,
        walk_folders(nodes, current, dirs) is Some,
    ensures
        is_folder_chain(nodes, current, named_parts(dirs), chain),
        walk_folders(nodes, current, dirs) == Some(chain.last()),
    decreases dirs.len(),
{
    if dirs.len() == 0 {
        seq![current]
    } else if is_ignored_part(dirs[0]) {
        lemma_walk_chain(nodes, current, dirs.drop_first())
    } else {
        let found = child_of_type(nodes, current, "folder"@, Some(dirs[0])).unwrap();
        let p = |i: nat|
            crate::save_read::document::is_child_of_type(
                nodes,
                current,
                "folder"@,
                Some(dirs[0]),
                i,
            );
        lemma_first_where(nodes.len(), 0, p);
        assert(found < nodes.len());
        let folder = found as usize;
        assert(folder as nat == found);
        lemma_child_of_type_first(nodes, current, "folder"@, dirs[0], folder);
        let rest = lemma_walk_chain(nodes, folder, dirs.drop_first());
        let chain = seq![current] + rest;
        let names = named_parts(dirs);
        assert(names == seq![dirs[0]] + named_parts(dirs.drop_first()));
        assert forall|j: int| 1 <= j < chain.len() implies first_named_child(
            nodes,
            chain[j - 1],
            #[trigger] chain[j],
            "folder"@,
            names[j - 1],
        ) by {
            if j == 1 {
                assert(chain[1] == rest[0]);
            } else {
                assert(chain[j] == rest[j - 1]);
                assert(chain[j - 1] == rest[j - 2]);
                assert(names[j - 1] == named_parts(dirs.drop_first())[j - 2]);
                assert(first_named_child(
                    nodes,
                    rest[(j - 1) - 1],
                    rest[j - 1],
                    "folder"@,
                    named_parts(dirs.drop_first())[(j - 1) - 1],
                ));
            }
        }
        assert(chain.last() == rest.last());
        chain
    }
}

/// Down a chain of folders named by the components that are not skipped, the
/// walk reaches the last of them.
proof fn lemma_chain_walk(
    nodes: Seq<NodeView>,
    current: usize,
    dirs: Seq<Seq<char>>,
    chain: Seq<usize>,
)
    requires
        nodes.len() <= usize::MAX,
        is_folder_chain(nodes, current, named_parts(dirs), chain),
    ensures
        walk_folders(nodes, current, dirs) == Some(chain.last()),
    decreases dirs.len(),
{
    if dirs.len() > 0 {
        if is_ignored_part(dirs[0]) {
            lemma_chain_walk(nodes, current, dirs.drop_first(), chain);
        } else {
            let names = named_parts(dirs);
            let more = named_parts(dirs.drop_first());
            assert(names == seq![dirs[0]] + more);
            assert(first_named_child(nodes, chain[0], chain[1], "folder"@, names[0]));
            lemma_child_of_type_first(nodes, current, "folder"@, dirs[0], chain[1]);
            let rest = chain.drop_first();
            assert forall|j: int| 1 <= j < rest.len() implies first_named_child(
                nodes,
                rest[j - 1],
                #[trigger] rest[j],
                "folder"@,
                more[j - 1],
            ) by {
                assert(rest[j] == chain[j + 1]);
                assert(rest[j - 1] == chain[(j + 1) - 1]);
                assert(more[j - 1] == names[(j + 1) - 1]);
            }
            lemma_chain_walk(nodes, chain[1], dirs.drop_first(), rest);
            assert(rest.last() == chain.last());
        }
    }
}

/// The file found is the one down the folders the path names: a file is
/// found exactly when there is a chain of folders from the computer's root
/// folder, each the first folder child of the one before it named by the next
/// path component that is not empty, `.` or `..`, and the last of them has a
/// `file` child named by the last component; the file found is the first
/// such child. So a directory component that names no folder below the ones
/// before it means no file is found.
pub proof fn lemma_file_in_named_folders(
    nodes: Seq<NodeView>,
    computer: usize,
    path: Seq<char>,
    f: usize,
)
    requires
        nodes.len() <= usize::MAX,
    ensures
        spec_file(nodes, computer, path) == Some(f) <==> exists|chain: Seq<usize>|
            #![trigger is_folder_chain(nodes, chain[0], named_parts(path_parts(path).drop_last()), chain)]
            spec_rootdir(nodes, computer) == Some(chain[0]) && is_folder_chain(
                nodes,
                chain[0],
                named_parts(path_parts(path).drop_last()),
                chain,
            ) && first_named_child(nodes, chain.last(), f, "file"@, path_parts(path).last()),
{
    let parts = path_parts(path);
    let names = named_parts(parts.drop_last());
    if spec_file(nodes, computer, path) == Some(f) {
        let root = spec_rootdir(nodes, computer).unwrap();
        let dir = walk_folders(nodes, root, parts.drop_last()).unwrap();
        let chain = lemma_walk_chain(nodes, root, parts.drop_last());
        let found = child_of_type(nodes, dir, "file"@, Some(parts.last())).unwrap();
        let p = |i: nat|
            crate::save_read::document::is_child_of_type(
                nodes,
                dir,
                "file"@,
                Some(parts.last()),
                i,
            );
        lemma_first_where(nodes.len(), 0, p);
        assert(found < nodes.len());
        assert(f as nat == found);
        lemma_child_of_type_first(nodes, dir, "file"@, parts.last(), f);
        assert(is_folder_chain(nodes, chain[0], names, chain));
    }
    if exists|chain: Seq<usize>|
        #![trigger is_folder_chain(nodes, chain[0], names, chain)]
        spec_rootdir(nodes, computer) == Some(chain[0]) && is_folder_chain(
            nodes,
            chain[0],
            names,
            chain,
        ) && first_named_child(nodes, chain.last(), f, "file"@, parts.last()) {
        let chain = choose|chain: Seq<usize>|
            #![trigger is_folder_chain(nodes, chain[0], names, chain)]
            spec_rootdir(nodes, computer) == Some(chain[0]) && is_folder_chain(
                nodes,
                chain[0],
                names,
                chain,
            ) && first_named_child(nodes, chain.last(), f, "file"@, parts.last());
        lemma_chain_walk(nodes, chain[0], parts.drop_last(), chain);
        lemma_child_of_type_first(nodes, chain.last(), "file"@, parts.last(), f);
    }
}

/// The root folder of a computer is a `folder` element named `/` whose parent
/// is a `filesystem` element that is a child of the computer.
pub proof fn lemma_rootdir_in_filesystem(nodes: Seq<NodeView>, computer: usize)
    requires
        nodes.len() <= usize::MAX,
    ensures
        spec_rootdir(nodes, computer) matches Some(root) ==> exists|fs: usize|
            #![trigger nodes[fs as int]]
            (fs as int) < nodes.len() && nodes[fs as int].parent == Some(computer)
                && nodes[fs as int].element && nodes[fs as int].tag_name == "filesystem"@
                && named_child(nodes, fs, root, "folder"@, "/"@),
{
    if let Some(fsn) = child_of_type(nodes, computer, "filesystem"@, None) {
        let p = |i: nat|
            crate::save_read::document::is_child_of_type(nodes, computer, "filesystem"@, None, i);
        lemma_first_where(nodes.len(), 0, p);
        let fs = fsn as usize;
        assert(fs as nat == fsn);
        if let Some(rn) = child_of_type(nodes, fs, "folder"@, Some("/"@)) {
            let q = |i: nat|
                crate::save_read::document::is_child_of_type(nodes, fs, "folder"@, Some("/"@), i);
            lemma_first_where(nodes.len(), 0, q);
            assert((rn as usize) as nat == rn);
            assert(named_child(nodes, fs, rn as usize, "folder"@, "/"@));
            assert(nodes[fs as int].element);
        }
    }
}

} // verus!
