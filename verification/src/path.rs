//! Paths as lists of components.
//!
//! Two paths are the same, and one lies inside another, by their components and
//! not by their spelling, so a path is held here as exactly that list: what
//! `std::path::Path::components` yields, with each name as text. A drive is known
//! by its letter, whatever its case, and a share by its names, whatever the slashes
//! between them. A name that is not Unicode is held as it reads, so two that read
//! alike are the same here.
use vstd::prelude::*;

use crate::text::{chars_of, same_texts, text_of, texts};

verus! {

/// The operating system a decision is made for.
#[derive(Debug, Clone, Copy, PartialEq, Eq, Structural)]
pub enum Platform {
    MacOs,
    Windows,
    Linux,
}

/// One component of a path.
#[derive(Debug, PartialEq, Eq)]
pub enum Part {
    /// A drive or share, such as `C:`, in whatever way it was written. Only Windows
    /// has these.
    Prefix(String),
    Root,
    Current,
    Parent,
    Normal(String),
}

/// What a [`Part`] means.
pub enum PartView {
    /// A drive or share, in the one way to write it.
    Prefix(Seq<char>),
    Root,
    Current,
    Parent,
    Normal(Seq<char>),
}

// ---------------------------------------------------------------------------
// Drives
// ---------------------------------------------------------------------------

/// The upper case form of an ASCII letter.
pub open spec fn ascii_upper(c: char) -> char {
    if 'a' <= c <= 'z' {
        (c as u32 - 32) as char
    } else {
        c
    }
}

/// Whether a text begins as a prefix that is taken word for word: `\\?\`.
pub open spec fn verbatim(text: Seq<char>) -> bool {
    text.len() >= 4 && text[0] == '\\' && text[1] == '\\' && text[2] == '?' && text[3] == '\\'
}

/// A backslash for either slash.
pub open spec fn backslashed(c: char) -> char {
    if c == '/' {
        '\\'
    } else {
        c
    }
}

/// The one way to write a drive or share. The letter of a drive has no case, and
/// either slash may stand in the name of a share; a prefix that is taken word for
/// word is left alone, but for the letter of a drive.
pub open spec fn drive(text: Seq<char>) -> Seq<char> {
    if text.len() == 2 && text[1] == ':' {
        text.update(0, ascii_upper(text[0]))
    } else if verbatim(text) {
        if text.len() == 6 && text[5] == ':' {
            text.update(4, ascii_upper(text[4]))
        } else {
            text
        }
    } else if text.len() >= 3 && text[2] == '?' {
        text
    } else {
        text.map_values(|c: char| backslashed(c))
    }
}

fn upper(c: char) -> (r: char)
    ensures
        r == ascii_upper(c),
{
    if c >= 'a' && c <= 'z' {
        (c as u8 - 32) as char
    } else {
        c
    }
}

/// The one way to write a drive or share.
pub fn drive_of(text: &str) -> (r: String)
    ensures
        r@ == drive(text@),
{
    let mut chars = chars_of(text);
    let n: usize = chars.len();
    if n == 2 && chars[1] == ':' {
        let letter = upper(chars[0]);
        chars.set(0, letter);
    } else if n >= 4 && chars[0] == '\\' && chars[1] == '\\' && chars[2] == '?' && chars[3] == '\\' {
        if n == 6 && chars[5] == ':' {
            let letter = upper(chars[4]);
            chars.set(4, letter);
        }
    } else if n >= 3 && chars[2] == '?' {
    } else {
        let mut i: usize = 0;
        while i < n
            invariant
                i <= n == chars@.len() == text@.len(),
                forall|k: int| 0 <= k < i ==> #[trigger] chars@[k] == backslashed(text@[k]),
                forall|k: int| i <= k < n ==> #[trigger] chars@[k] == text@[k],
            decreases n - i,
        {
            if chars[i] == '/' {
                chars.set(i, '\\');
            }
            i += 1;
        }
        assert(chars@ =~= text@.map_values(|c: char| backslashed(c)));
    }
    text_of(&chars)
}

/// A drive or share has one way to be written: writing it that way changes nothing
/// more.
pub proof fn law_drives_are_settled(text: Seq<char>)
    ensures
        drive(drive(text)) == drive(text),
{
    assert(drive(drive(text)) =~= drive(text));
}

/// The letter of a drive has no case.
pub proof fn law_drive_letters_have_no_case(a: char, b: char)
    requires
        ascii_upper(a) == ascii_upper(b),
    ensures
        drive(seq![a, ':']) == drive(seq![b, ':']),
{
    assert(drive(seq![a, ':']) =~= drive(seq![b, ':']));
}

impl View for Part {
    type V = PartView;

    open spec fn view(&self) -> PartView {
        match self {
            Part::Prefix(name) => PartView::Prefix(drive(name@)),
            Part::Root => PartView::Root,
            Part::Current => PartView::Current,
            Part::Parent => PartView::Parent,
            Part::Normal(name) => PartView::Normal(name@),
        }
    }
}

impl Clone for Part {
    fn clone(&self) -> (r: Self)
        ensures
            r == *self,
    {
        match self {
            Part::Prefix(name) => Part::Prefix(name.clone()),
            Part::Root => Part::Root,
            Part::Current => Part::Current,
            Part::Parent => Part::Parent,
            Part::Normal(name) => Part::Normal(name.clone()),
        }
    }
}

impl Part {
    /// Whether two components are the same.
    pub fn same(&self, other: &Part) -> (r: bool)
        ensures
            r == (self@ == other@),
    {
        match (self, other) {
            (Part::Prefix(a), Part::Prefix(b)) => *drive_of(a.as_str()).as_str() == *drive_of(
                b.as_str(),
            ).as_str(),
            (Part::Root, Part::Root) => true,
            (Part::Current, Part::Current) => true,
            (Part::Parent, Part::Parent) => true,
            (Part::Normal(a), Part::Normal(b)) => *a == *b,
            _ => false,
        }
    }

    /// How the component reads on its own.
    pub fn text(&self) -> (r: String)
        ensures
            r@ == part_text(self@),
    {
        match self {
            Part::Prefix(name) => drive_of(name.as_str()),
            Part::Root => "/".to_string(),
            Part::Current => ".".to_string(),
            Part::Parent => "..".to_string(),
            Part::Normal(name) => name.clone(),
        }
    }
}

/// How a component reads on its own.
pub open spec fn part_text(part: PartView) -> Seq<char> {
    match part {
        PartView::Prefix(name) => name,
        PartView::Root => "/"@,
        PartView::Current => "."@,
        PartView::Parent => ".."@,
        PartView::Normal(name) => name,
    }
}

/// A path.
#[derive(Debug, PartialEq, Eq)]
pub struct FsPath {
    pub parts: Vec<Part>,
}

impl View for FsPath {
    type V = Seq<PartView>;

    open spec fn view(&self) -> Seq<PartView> {
        self.parts@.map_values(|part: Part| part@)
    }
}

impl Clone for FsPath {
    fn clone(&self) -> (r: Self)
        ensures
            r@ == self@,
    {
        let mut parts: Vec<Part> = Vec::new();
        let mut i: usize = 0;
        while i < self.parts.len()
            invariant
                i <= self.parts.len(),
                parts@ == self.parts@.take(i as int),
            decreases self.parts.len() - i,
        {
            parts.push(self.parts[i].clone());
            i += 1;
        }
        assert(parts@ == self.parts@);
        FsPath { parts }
    }
}

/// The views of a list of paths.
pub open spec fn paths(list: Seq<FsPath>) -> Seq<Seq<PartView>> {
    list.map_values(|path: FsPath| path@)
}

/// A path one name below another.
pub open spec fn child_path(path: Seq<PartView>, name: Seq<char>) -> Seq<PartView> {
    path.push(PartView::Normal(name))
}

/// The path made of a base and a list of names below it.
pub open spec fn path_below(base: Seq<PartView>, names: Seq<Seq<char>>) -> Seq<PartView> {
    base + names.map_values(|name: Seq<char>| PartView::Normal(name))
}

/// A path without its last component; `None` where that is a root, a drive, or
/// missing.
pub open spec fn parent_path(path: Seq<PartView>) -> Option<Seq<PartView>> {
    if path.len() == 0 || path.last() is Root || path.last() is Prefix {
        None
    } else {
        Some(path.drop_last())
    }
}

/// The name a path ends in, if it ends in a name.
pub open spec fn path_name(path: Seq<PartView>) -> Option<Seq<char>> {
    if path.len() == 0 {
        None
    } else {
        match path.last() {
            PartView::Normal(name) => Some(name),
            _ => None,
        }
    }
}

/// Whether a path does not depend on a current directory. Windows wants a drive
/// in front of the root; elsewhere the root is enough.
pub open spec fn absolute(path: Seq<PartView>, platform: Platform) -> bool {
    if platform is Windows {
        path.len() >= 2 && path[0] is Prefix && path[1] is Root
    } else {
        path.len() >= 1 && path[0] is Root
    }
}

/// Whether the components of a path stand where they can: a drive in front, a root
/// in front or behind a drive, and `.` in front.
pub open spec fn formed(path: Seq<PartView>) -> bool {
    forall|k: int|
        0 < k < path.len() ==> match #[trigger] path[k] {
            PartView::Prefix(_) => false,
            PartView::Root => k == 1 && path[0] is Prefix,
            PartView::Current => false,
            PartView::Parent => true,
            PartView::Normal(_) => true,
        }
}

/// Whether a path lies inside `root`, or is `root` itself.
pub open spec fn within(path: Seq<PartView>, root: Seq<PartView>) -> bool {
    root.is_prefix_of(path)
}

/// Whether a path has a component that leads back up.
pub open spec fn climbs(path: Seq<PartView>) -> bool {
    exists|i: int| 0 <= i < path.len() && (#[trigger] path[i]) is Parent
}

/// Whether a path lies inside one of `roots`.
pub open spec fn within_any(path: Seq<PartView>, roots: Seq<FsPath>) -> bool {
    exists|i: int| 0 <= i < roots.len() && within(path, (#[trigger] roots[i])@)
}

/// The path that is nothing but the root.
pub open spec fn root_only() -> Seq<PartView> {
    seq![PartView::Root]
}

impl FsPath {
    /// The path that is nothing but the root.
    pub fn root() -> (r: FsPath)
        ensures
            r@ == root_only(),
    {
        let mut parts: Vec<Part> = Vec::new();
        parts.push(Part::Root);
        let r = FsPath { parts };
        assert(r@ =~= root_only());
        r
    }

    /// Whether two paths are the same.
    pub fn same(&self, other: &FsPath) -> (r: bool)
        ensures
            r == (self@ == other@),
    {
        assert(self@.len() == self.parts.len() && other@.len() == other.parts.len());
        self.parts.len() == other.parts.len() && self.starts_with(other)
    }

    /// Whether this path lies inside `root`, or is `root` itself.
    pub fn starts_with(&self, root: &FsPath) -> (r: bool)
        ensures
            r == within(self@, root@),
            self@.len() == root@.len() ==> r == (self@ == root@),
    {
        if self.parts.len() < root.parts.len() {
            return false;
        }
        let mut i: usize = 0;
        while i < root.parts.len()
            invariant
                i <= root.parts.len() <= self.parts.len(),
                forall|j: int| 0 <= j < i ==> self@[j] == root@[j],
            decreases root.parts.len() - i,
        {
            if !self.parts[i].same(&root.parts[i]) {
                assert(self@[i as int] != root@[i as int]);
                assert(self@.subrange(0, root@.len() as int)[i as int] == self@[i as int]);
                return false;
            }
            assert(self@[i as int] == root@[i as int]);
            i += 1;
        }
        assert(root@ =~= self@.subrange(0, root@.len() as int));
        assert(self@.len() == root@.len() ==> self@ =~= root@);
        true
    }

    /// Whether this path lies inside one of `roots`.
    pub fn starts_with_any(&self, roots: &Vec<FsPath>) -> (r: bool)
        ensures
            r == within_any(self@, roots@),
    {
        let mut i: usize = 0;
        while i < roots.len()
            invariant
                i <= roots.len(),
                forall|j: int| 0 <= j < i ==> !within(self@, (#[trigger] roots@[j])@),
            decreases roots.len() - i,
        {
            if self.starts_with(&roots[i]) {
                return true;
            }
            i += 1;
        }
        false
    }

    /// The path one name below this one.
    pub fn child(&self, name: &str) -> (r: FsPath)
        ensures
            r@ == child_path(self@, name@),
    {
        let mut r = self.clone();
        r.parts.push(Part::Normal(name.to_string()));
        assert(r@ =~= child_path(self@, name@));
        r
    }

    /// This path without its last component.
    pub fn parent(&self) -> (r: Option<FsPath>)
        ensures
            r is Some <==> parent_path(self@) is Some,
            r matches Some(p) ==> parent_path(self@) == Some(p@),
    {
        if self.parts.len() == 0 {
            return None;
        }
        let last: usize = self.parts.len() - 1;
        assert(self@.last() == self.parts@[last as int]@);
        match &self.parts[last] {
            Part::Root => None,
            Part::Prefix(_) => None,
            _ => {
                let mut r = self.clone();
                assert(r@.len() == self@.len());
                r.parts.pop();
                assert(r@ =~= self@.drop_last());
                Some(r)
            },
        }
    }

    /// The name this path ends in, if it ends in a name.
    pub fn file_name(&self) -> (r: Option<String>)
        ensures
            r is Some <==> path_name(self@) is Some,
            r matches Some(name) ==> path_name(self@) == Some(name@),
    {
        if self.parts.len() == 0 {
            return None;
        }
        let last: usize = self.parts.len() - 1;
        assert(self@.last() == self.parts@[last as int]@);
        match &self.parts[last] {
            Part::Normal(name) => Some(name.clone()),
            _ => None,
        }
    }

    /// Whether this path has a component that leads back up.
    pub fn is_climbing(&self) -> (r: bool)
        ensures
            r == climbs(self@),
    {
        let mut i: usize = 0;
        while i < self.parts.len()
            invariant
                i <= self.parts.len(),
                forall|j: int| 0 <= j < i ==> !((#[trigger] self@[j]) is Parent),
            decreases self.parts.len() - i,
        {
            assert(self@[i as int] == self.parts@[i as int]@);
            match &self.parts[i] {
                Part::Parent => {
                    return true;
                },
                _ => {},
            }
            i += 1;
        }
        false
    }

    /// Whether this path does not depend on a current directory.
    pub fn is_absolute(&self, platform: Platform) -> (r: bool)
        ensures
            r == absolute(self@, platform),
    {
        match platform {
            Platform::Windows => {
                if self.parts.len() < 2 {
                    return false;
                }
                assert(self@[0] == self.parts@[0]@);
                assert(self@[1] == self.parts@[1]@);
                match (&self.parts[0], &self.parts[1]) {
                    (Part::Prefix(_), Part::Root) => true,
                    _ => false,
                }
            },
            _ => {
                if self.parts.len() < 1 {
                    return false;
                }
                assert(self@[0] == self.parts@[0]@);
                match &self.parts[0] {
                    Part::Root => true,
                    _ => false,
                }
            },
        }
    }
}

/// Whether `path` is one of `list`.
pub open spec fn listed_path(list: Seq<FsPath>, path: Seq<PartView>) -> bool {
    exists|i: int| 0 <= i < list.len() && (#[trigger] list[i])@ == path
}

/// Whether `path` is one of `list`.
pub fn contains_path(list: &Vec<FsPath>, path: &FsPath) -> (r: bool)
    ensures
        r == listed_path(list@, path@),
{
    let mut i: usize = 0;
    while i < list.len()
        invariant
            i <= list.len(),
            forall|j: int| 0 <= j < i ==> (#[trigger] list@[j])@ != path@,
        decreases list.len() - i,
    {
        if list[i].same(path) {
            return true;
        }
        i += 1;
    }
    false
}

/// A copy of a list of paths.
pub fn copy_paths(list: &Vec<FsPath>) -> (r: Vec<FsPath>)
    ensures
        paths(r@) == paths(list@),
{
    let mut out: Vec<FsPath> = Vec::new();
    let mut i: usize = 0;
    while i < list.len()
        invariant
            i <= list.len(),
            paths(out@) == paths(list@).take(i as int),
        decreases list.len() - i,
    {
        let ghost before = out@;
        out.push(list[i].clone());
        assert(paths(out@) =~= paths(before).push(list@[i as int]@));
        assert(paths(list@).take(i + 1) =~= paths(list@).take(i as int).push(list@[i as int]@));
        i += 1;
    }
    assert(paths(out@) =~= paths(list@));
    out
}

// ---------------------------------------------------------------------------
// Spelling
// ---------------------------------------------------------------------------

/// The components of a path run together, with a separator between two that are
/// not a drive or a root in front.
pub open spec fn spelled(path: Seq<PartView>, separator: char) -> Seq<char>
    decreases path.len(),
{
    if path.len() == 0 {
        Seq::empty()
    } else {
        let front = path.drop_last();
        let glue = if front.len() == 0 || front.last() is Root || front.last() is Prefix {
            Seq::empty()
        } else {
            seq![separator]
        };
        let end = if path.last() is Root {
            seq![separator]
        } else {
            part_text(path.last())
        };
        spelled(front, separator) + glue + end
    }
}

/// The separator a platform writes between components.
pub open spec fn separator(platform: Platform) -> char {
    if platform is Windows {
        '\\'
    } else {
        '/'
    }
}

impl FsPath {
    /// The path written out with `separator` between its components.
    pub fn spell(&self, separator: char) -> (r: String)
        ensures
            r@ == spelled(self@, separator),
    {
        let mut out = String::new();
        let mut i: usize = 0;
        while i < self.parts.len()
            invariant
                i <= self.parts.len(),
                out@ == spelled(self@.take(i as int), separator),
            decreases self.parts.len() - i,
        {
            let ghost before = out@;
            let ghost longer = self@.take(i + 1);
            assert(longer.drop_last() =~= self@.take(i as int));
            let glue = if i == 0 {
                false
            } else {
                assert(longer.drop_last().last() == self.parts@[i - 1]@);
                match &self.parts[i - 1] {
                    Part::Root => false,
                    Part::Prefix(_) => false,
                    _ => true,
                }
            };
            if glue {
                out.push(separator);
            }
            assert(longer.last() == self.parts@[i as int]@);
            match &self.parts[i] {
                Part::Root => out.push(separator),
                _ => out.append(self.parts[i].text().as_str()),
            }
            assert(out@ =~= spelled(longer, separator));
            i += 1;
        }
        assert(self@.take(self@.len() as int) == self@);
        out
    }

    /// The path as the platform writes it: one separator between components, and
    /// the letter of a drive in upper case.
    pub fn display(&self, platform: Platform) -> (r: String)
        ensures
            r@ == spelled(self@, separator(platform)),
    {
        match platform {
            Platform::Windows => self.spell('\\'),
            _ => self.spell('/'),
        }
    }
}

// ---------------------------------------------------------------------------
// Reading
// ---------------------------------------------------------------------------

/// Whether a platform takes a character as one that stands between components.
pub open spec fn separates(c: char, platform: Platform) -> bool {
    c == '/' || (platform is Windows && c == '\\')
}

/// The pieces of a text so far, with one more: an empty one and `.` do not count.
pub open spec fn with_piece(done: Seq<Seq<char>>, piece: Seq<char>, platform: Platform) -> Seq<
    Seq<char>,
> {
    if piece.len() == 0 || piece == "."@ {
        done
    } else if platform is Windows {
        done.push(drive(piece))
    } else {
        done.push(piece)
    }
}

/// The pieces of a text between its separators, and what follows the last one.
pub open spec fn cut(text: Seq<char>, platform: Platform) -> (Seq<Seq<char>>, Seq<char>)
    decreases text.len(),
{
    if text.len() == 0 {
        (Seq::empty(), Seq::empty())
    } else {
        let (done, piece) = cut(text.drop_last(), platform);
        if separates(text.last(), platform) {
            (with_piece(done, piece, platform), Seq::empty())
        } else {
            (done, piece.push(text.last()))
        }
    }
}

/// The pieces of a text between its separators, however many of these there are.
pub open spec fn pieces(text: Seq<char>, platform: Platform) -> Seq<Seq<char>> {
    let (done, piece) = cut(text, platform);
    with_piece(done, piece, platform)
}

/// Whether a text starts at a root.
pub open spec fn rooted(text: Seq<char>, platform: Platform) -> bool {
    text.len() > 0 && separates(text[0], platform)
}

/// Whether a text is a way to write a path: it has the same pieces as the path
/// written out, whatever separators stand between them.
pub open spec fn denotes(text: Seq<char>, path: Seq<PartView>, platform: Platform) -> bool {
    let plain = spelled(path, separator(platform));
    rooted(text, platform) == rooted(plain, platform) && pieces(text, platform) == pieces(
        plain,
        platform,
    )
}

/// A path written out is a way to write it.
pub proof fn law_spelling_denotes(path: Seq<PartView>, platform: Platform)
    ensures
        denotes(spelled(path, separator(platform)), path, platform),
{
}

fn is_separator(c: char, platform: Platform) -> (r: bool)
    ensures
        r == separates(c, platform),
{
    match platform {
        Platform::Windows => c == '/' || c == '\\',
        _ => c == '/',
    }
}

fn add_piece(done: &mut Vec<String>, piece: &Vec<char>, platform: Platform)
    ensures
        texts(final(done)@) == with_piece(texts(old(done)@), piece@, platform),
{
    let ghost before = done@;
    proof {
        reveal_strlit(".");
        if piece@.len() == 1 && piece@[0] == '.' {
            assert(piece@ =~= "."@);
        }
    }
    if piece.len() == 0 || (piece.len() == 1 && piece[0] == '.') {
        return;
    }
    let text = text_of(piece);
    let whole = match platform {
        Platform::Windows => drive_of(text.as_str()),
        _ => text,
    };
    done.push(whole);
    assert(texts(done@) =~= texts(before).push(whole@));
}

/// The pieces of a text between its separators.
pub fn pieces_of(text: &str, platform: Platform) -> (r: Vec<String>)
    ensures
        texts(r@) == pieces(text@, platform),
{
    let chars = chars_of(text);
    let mut done: Vec<String> = Vec::new();
    let mut piece: Vec<char> = Vec::new();
    let mut i: usize = 0;
    assert(texts(done@) =~= cut(text@.take(0), platform).0);
    assert(piece@ =~= cut(text@.take(0), platform).1);
    while i < chars.len()
        invariant
            i <= chars.len(),
            chars@ == text@,
            texts(done@) == cut(text@.take(i as int), platform).0,
            piece@ == cut(text@.take(i as int), platform).1,
        decreases chars.len() - i,
    {
        assert(text@.take(i + 1).drop_last() =~= text@.take(i as int));
        assert(text@.take(i + 1).last() == chars@[i as int]);
        if is_separator(chars[i], platform) {
            add_piece(&mut done, &piece, platform);
            piece = Vec::new();
            assert(piece@ =~= Seq::empty());
        } else {
            piece.push(chars[i]);
        }
        i += 1;
    }
    assert(text@.take(text@.len() as int) =~= text@);
    add_piece(&mut done, &piece, platform);
    done
}

impl FsPath {
    /// Whether a text is a way to write this path.
    pub fn is_denoted_by(&self, text: &str, platform: Platform) -> (r: bool)
        ensures
            r == denotes(text@, self@, platform),
    {
        let plain = self.display(platform);
        let given = chars_of(text);
        let spelled_out = chars_of(plain.as_str());
        let a = given.len() > 0 && is_separator(given[0], platform);
        let b = spelled_out.len() > 0 && is_separator(spelled_out[0], platform);
        if a != b {
            return false;
        }
        let here = pieces_of(text, platform);
        let there = pieces_of(plain.as_str(), platform);
        same_texts(&here, &there)
    }
}

// ---------------------------------------------------------------------------
// What paths promise
// ---------------------------------------------------------------------------

/// A path lies inside a root exactly when it begins with all of the root's
/// components.
pub proof fn law_inside_means_sharing_every_component(path: Seq<PartView>, root: Seq<PartView>)
    ensures
        within(path, root) <==> root.len() <= path.len() && forall|i: int|
            0 <= i < root.len() ==> #[trigger] root[i] == path[i],
{
    if within(path, root) {
        assert forall|i: int| 0 <= i < root.len() implies #[trigger] root[i] == path[i] by {
            assert(path.subrange(0, root.len() as int)[i] == path[i]);
        }
    }
    if root.len() <= path.len() && forall|i: int|
        0 <= i < root.len() ==> #[trigger] root[i] == path[i] {
        assert(root =~= path.subrange(0, root.len() as int));
    }
}

/// A path lies inside one of some roots exactly when it begins with all components
/// of one of them.
pub proof fn law_inside_any_means_inside_one(path: Seq<PartView>, roots: Seq<FsPath>)
    ensures
        within_any(path, roots) <==> exists|r: int|
            0 <= r < roots.len() && (#[trigger] roots[r])@.len() <= path.len() && forall|i: int|
                0 <= i < roots[r]@.len() ==> #[trigger] roots[r]@[i] == path[i],
{
    if within_any(path, roots) {
        let r = choose|r: int| 0 <= r < roots.len() && within(path, (#[trigger] roots[r])@);
        law_inside_means_sharing_every_component(path, roots[r]@);
    }
    if exists|r: int|
        0 <= r < roots.len() && (#[trigger] roots[r])@.len() <= path.len() && forall|i: int|
            0 <= i < roots[r]@.len() ==> #[trigger] roots[r]@[i] == path[i] {
        let r = choose|r: int|
            0 <= r < roots.len() && (#[trigger] roots[r])@.len() <= path.len() && forall|i: int|
                0 <= i < roots[r]@.len() ==> #[trigger] roots[r]@[i] == path[i];
        law_inside_means_sharing_every_component(path, roots[r]@);
    }
}

/// A component is what it was made of: names are told apart by every character,
/// and so are kinds of components. Only drives and shares have more than one way to
/// be written.
pub proof fn law_components_are_told_apart(a: Part, b: Part)
    ensures
        (match (a, b) {
            (Part::Normal(x), Part::Normal(y)) => a@ == b@ <==> x@ == y@,
            (Part::Prefix(x), Part::Prefix(y)) => x@ == y@ ==> a@ == b@,
            (Part::Root, Part::Root) => a@ == b@,
            (Part::Current, Part::Current) => a@ == b@,
            (Part::Parent, Part::Parent) => a@ == b@,
            _ => a@ != b@,
        }),
{
}

/// Drives of different letters are different drives.
pub proof fn law_drives_are_told_apart_by_their_letter(a: char, b: char)
    requires
        'A' <= a <= 'Z',
        'A' <= b <= 'Z',
        a != b,
    ensures
        drive(seq![a, ':']) != drive(seq![b, ':']),
        drive(seq![a, ':']) == seq![a, ':'],
        drive(seq![(a as u32 + 32) as char, ':']) == seq![a, ':'],
{
    assert(drive(seq![a, ':'])[0] == a);
    assert(drive(seq![b, ':'])[0] == b);
    assert(drive(seq![a, ':']) =~= seq![a, ':']);
    assert(drive(seq![(a as u32 + 32) as char, ':']) =~= seq![a, ':']);
}

/// The directory above a path is the path without its last component, and what was
/// left out is the path's name.
pub proof fn law_a_child_leads_back_to_its_parent(path: Seq<PartView>, name: Seq<char>)
    ensures
        child_path(path, name).len() == path.len() + 1,
        child_path(path, name).last() == PartView::Normal(name),
        parent_path(child_path(path, name)) == Some(path),
        path_name(child_path(path, name)) == Some(name),
        within(child_path(path, name), path),
{
    assert(child_path(path, name).drop_last() =~= path);
    assert(path =~= child_path(path, name).subrange(0, path.len() as int));
}

/// The root of a disk and a drive have nothing above them and no name.
pub proof fn law_roots_have_no_parent(path: Seq<PartView>, drive_name: Seq<char>)
    ensures
        parent_path(path.push(PartView::Root)) is None,
        path_name(path.push(PartView::Root)) is None,
        parent_path(path.push(PartView::Prefix(drive_name))) is None,
        path_name(path.push(PartView::Prefix(drive_name))) is None,
        parent_path(Seq::empty()) is None,
        path_name(Seq::empty()) is None,
        path_name(path.push(PartView::Parent)) is None,
{
}

/// Going down a list of names is going down one after the other.
pub proof fn law_names_lead_down_one_by_one(
    base: Seq<PartView>,
    names: Seq<Seq<char>>,
    name: Seq<char>,
)
    ensures
        path_below(base, Seq::empty()) == base,
        path_below(base, names.push(name)) == path_below(base, names).push(PartView::Normal(name)),
{
    assert(path_below(base, Seq::empty()) =~= base);
    assert(path_below(base, names.push(name)) =~= path_below(base, names).push(
        PartView::Normal(name),
    ));
}

/// A path is absolute when it starts at the root of a disk, which on Windows takes a
/// drive in front.
pub proof fn law_absolute_paths_start_at_a_root(path: Seq<PartView>)
    ensures
        absolute(path, Platform::Linux) <==> path.len() > 0 && path[0] == PartView::Root,
        absolute(path, Platform::MacOs) <==> path.len() > 0 && path[0] == PartView::Root,
        absolute(path, Platform::Windows) <==> path.len() > 1 && path[0] is Prefix && path[1]
            == PartView::Root,
        climbs(path) <==> path.contains(PartView::Parent),
{
    if climbs(path) {
        let i = choose|i: int| 0 <= i < path.len() && (#[trigger] path[i]) is Parent;
        assert(path[i] == PartView::Parent);
    }
    if path.contains(PartView::Parent) {
        let i = choose|i: int| 0 <= i < path.len() && path[i] == PartView::Parent;
        assert(path[i] is Parent);
    }
}

/// Written out, a name follows what is above it after one separator, which a root
/// brings along.
pub proof fn law_names_are_written_after_a_separator(path: Seq<PartView>, name: Seq<char>, sep: char)
    ensures
        spelled(Seq::empty(), sep) == Seq::<char>::empty(),
        spelled(seq![PartView::Root], sep) == seq![sep],
        spelled(seq![PartView::Root, PartView::Normal(name)], sep) == seq![sep] + name,
        path.len() > 0 && path.last() is Normal ==> spelled(
            path.push(PartView::Normal(name)),
            sep,
        ) == spelled(path, sep) + seq![sep] + name,
        separator(Platform::Windows) == '\\',
        separator(Platform::MacOs) == '/',
        separator(Platform::Linux) == '/',
{
    reveal_with_fuel(spelled, 3);
    let root = seq![PartView::Root];
    assert(root.drop_last() =~= Seq::<PartView>::empty());
    assert(spelled(root, sep) =~= seq![sep]);
    let two = seq![PartView::Root, PartView::Normal(name)];
    assert(two.drop_last() =~= root);
    assert(spelled(two, sep) =~= seq![sep] + name);
    assert(path.push(PartView::Normal(name)).drop_last() =~= path);
}

/// A share is written with backslashes, and keeps its letters as they are; a prefix
/// that is taken word for word stays as it is.
pub proof fn law_shares_keep_their_letters(text: Seq<char>, i: int)
    requires
        text.len() > 2,
        0 <= i < text.len(),
    ensures
        text[2] != '?' ==> drive(text).len() == text.len() && drive(text)[i] == (if text[i] == '/' {
            '\\'
        } else {
            text[i]
        }),
        text[2] == '?' && text.len() != 6 ==> drive(text) == text,
        text[2] == '?' && i != 4 ==> drive(text).len() == text.len() && drive(text)[i] == text[i],
{
}

/// Written out, a drive and the root behind it take one separator, and what leads up
/// is written as two dots.
pub proof fn law_drives_are_written_in_front(
    path: Seq<PartView>,
    drive_name: Seq<char>,
    name: Seq<char>,
    sep: char,
)
    ensures
        spelled(seq![PartView::Prefix(drive_name)], sep) == drive_name,
        spelled(seq![PartView::Prefix(drive_name), PartView::Root], sep) == drive_name + seq![sep],
        spelled(
            seq![PartView::Prefix(drive_name), PartView::Root, PartView::Normal(name)],
            sep,
        ) == drive_name + seq![sep] + name,
        path.len() > 0 && path.last() is Normal ==> spelled(path.push(PartView::Parent), sep)
            == spelled(path, sep) + seq![sep] + ".."@,
        path.len() > 0 && path.last() is Parent ==> spelled(
            path.push(PartView::Normal(name)),
            sep,
        ) == spelled(path, sep) + seq![sep] + name,
{
    let nothing = Seq::<PartView>::empty();
    let one = seq![PartView::Prefix(drive_name)];
    let two = seq![PartView::Prefix(drive_name), PartView::Root];
    let three = seq![PartView::Prefix(drive_name), PartView::Root, PartView::Normal(name)];
    assert(one.drop_last() =~= nothing);
    assert(spelled(nothing, sep) =~= Seq::<char>::empty());
    assert(spelled(one, sep) =~= drive_name);
    assert(two.drop_last() =~= one);
    assert(spelled(two, sep) =~= drive_name + seq![sep]);
    assert(three.drop_last() =~= two);
    assert(spelled(three, sep) =~= drive_name + seq![sep] + name);
    assert(path.push(PartView::Parent).drop_last() =~= path);
    assert(path.push(PartView::Normal(name)).drop_last() =~= path);
}

proof fn lemma_cut_goes_on(text: Seq<char>, piece: Seq<char>, platform: Platform)
    requires
        forall|i: int| 0 <= i < piece.len() ==> !separates(#[trigger] piece[i], platform),
    ensures
        cut(text + piece, platform).0 == cut(text, platform).0,
        cut(text + piece, platform).1 == cut(text, platform).1 + piece,
    decreases piece.len(),
{
    let all = text + piece;
    if piece.len() == 0 {
        assert(all =~= text);
        assert(cut(text, platform).1 + piece =~= cut(text, platform).1);
    } else {
        let front = piece.drop_last();
        assert forall|i: int| 0 <= i < front.len() implies !separates(
            #[trigger] front[i],
            platform,
        ) by {
            assert(piece[i] == front[i]);
        }
        lemma_cut_goes_on(text, front, platform);
        assert(all.drop_last() =~= text + front);
        assert(all.last() == piece[piece.len() - 1]);
        assert((cut(text, platform).1 + front).push(piece.last()) =~= cut(text, platform).1
            + piece);
    }
}

/// A text is read piece by piece: a slash stands between two, on Windows a backslash
/// as well; what is empty and a single dot do not count.
pub proof fn law_texts_are_read_in_pieces(text: Seq<char>, piece: Seq<char>, platform: Platform)
    requires
        forall|i: int|
            0 <= i < piece.len() ==> (#[trigger] piece[i]) != '/' && (platform is Windows
                ==> piece[i] != '\\'),
    ensures
        pieces(Seq::empty(), platform).len() == 0,
        pieces(text + seq!['/'], platform) == pieces(text, platform),
        platform is Windows ==> pieces(text + seq!['\\'], platform) == pieces(text, platform),
        piece.len() > 0 && piece != "."@ && !(platform is Windows) ==> pieces(
            text + seq!['/'] + piece,
            platform,
        ) == pieces(text, platform).push(piece),
        piece.len() > 0 && piece != "."@ && platform is Windows ==> pieces(
            text + seq!['/'] + piece,
            platform,
        ) == pieces(text, platform).push(drive(piece)) && pieces(
            text + seq!['\\'] + piece,
            platform,
        ) == pieces(text, platform).push(drive(piece)),
        piece == "."@ ==> pieces(text + seq!['/'] + piece, platform) == pieces(text, platform),
{
    let slashed = text + seq!['/'];
    assert(slashed.drop_last() =~= text);
    assert(slashed.last() == '/');
    let nothing = Seq::<char>::empty();
    assert(cut(slashed, platform) == (pieces(text, platform), nothing));
    lemma_cut_goes_on(slashed, piece, platform);
    assert(nothing + piece =~= piece);
    if platform is Windows {
        let other = text + seq!['\\'];
        assert(other.drop_last() =~= text);
        assert(other.last() == '\\');
        assert(cut(other, platform) == (pieces(text, platform), nothing));
        lemma_cut_goes_on(other, piece, platform);
    }
}

/// A text that is read as a path has all the pieces of the path, in order, and starts
/// at a root if the path does.
pub proof fn law_denoting_is_having_the_pieces(
    text: Seq<char>,
    path: Seq<PartView>,
    platform: Platform,
)
    ensures
        denotes(text, path, platform) <==> pieces(text, platform) == pieces(
            spelled(path, separator(platform)),
            platform,
        ) && (rooted(text, platform) <==> rooted(spelled(path, separator(platform)), platform)),
        rooted(text, Platform::Linux) <==> text.len() > 0 && text[0] == '/',
        rooted(text, Platform::MacOs) <==> text.len() > 0 && text[0] == '/',
        rooted(text, Platform::Windows) <==> text.len() > 0 && (text[0] == '/' || text[0] == '\\'),
{
}

/// A path is listed exactly if it is one of the paths of the list.
pub proof fn law_listed_paths_are_in_the_list(list: Seq<FsPath>, path: Seq<PartView>)
    ensures
        listed_path(list, path) <==> paths(list).contains(path),
{
    if listed_path(list, path) {
        let i = choose|i: int| 0 <= i < list.len() && (#[trigger] list[i])@ == path;
        assert(paths(list)[i] == path);
    }
    if paths(list).contains(path) {
        let i = choose|i: int| 0 <= i < paths(list).len() && paths(list)[i] == path;
        assert(list[i]@ == path);
    }
}

} // verus!
