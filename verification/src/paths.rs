//! Paths as a system reads them: the relative paths on the wire, which never
//! lead out of the directory they are received into, and the names that local
//! paths end in.

use vstd::prelude::*;
use vstd::string::*;

use crate::error::{Error, Result};
use crate::text::{chars_of, string_of};

verus! {

/// The system that a path is meant for.
#[derive(Debug, Clone, Copy, PartialEq, Eq, Structural)]
pub enum Platform {
    /// Parts are separated by `/`.
    Unix,
    /// Parts are separated by `/` or `\`, and a path may start with a drive, a
    /// network share or a device.
    Windows,
}

/// Whether a character separates parts. A verbatim path, which only Windows
/// has, is separated by `\` alone.
pub open spec fn is_separator(c: char, platform: Platform, verbatim: bool) -> bool {
    ||| c == '/' && !verbatim
    ||| c == '\\' && platform == Platform::Windows
}

fn separates(c: char, platform: Platform, verbatim: bool) -> (r: bool)
    ensures
        r == is_separator(c, platform, verbatim),
{
    (c == '/' && !verbatim) || (c == '\\' && platform == Platform::Windows)
}

/// The separator that a system writes.
pub open spec fn main_separator(platform: Platform) -> char {
    match platform {
        Platform::Unix => '/',
        Platform::Windows => '\\',
    }
}

/// Starts with a drive: a letter and a colon.
pub open spec fn has_drive(s: Seq<char>, platform: Platform) -> bool {
    &&& platform == Platform::Windows
    &&& s.len() >= 2
    &&& ('a' <= s[0] <= 'z' || 'A' <= s[0] <= 'Z')
    &&& s[1] == ':'
}

fn starts_with_drive(s: &Vec<char>, platform: Platform) -> (r: bool)
    ensures
        r == has_drive(s@, platform),
{
    platform == Platform::Windows && s.len() >= 2 && (('a' <= s[0] && s[0] <= 'z') || ('A' <= s[0]
        && s[0] <= 'Z')) && s[1] == ':'
}

/// Where the part that starts at `from` ends.
pub open spec fn part_end(s: Seq<char>, from: nat, platform: Platform, verbatim: bool) -> nat
    decreases s.len() - from,
{
    if from >= s.len() || is_separator(s[from as int], platform, verbatim) {
        from
    } else {
        part_end(s, from + 1, platform, verbatim)
    }
}

fn end_of_part(s: &Vec<char>, from: usize, platform: Platform, verbatim: bool) -> (r: usize)
    requires
        from <= s@.len(),
    ensures
        r == part_end(s@, from as nat, platform, verbatim),
        from <= r <= s@.len(),
{
    let mut end: usize = from;
    while end < s.len() && !separates(s[end], platform, verbatim)
        invariant
            from <= end <= s@.len(),
            part_end(s@, from as nat, platform, verbatim) == part_end(
                s@,
                end as nat,
                platform,
                verbatim,
            ),
        decreases s@.len() - end,
    {
        end += 1;
    }
    end
}

/// Starts with `\\?\`: the rest is taken word for word.
pub open spec fn is_verbatim(s: Seq<char>, platform: Platform) -> bool {
    &&& platform == Platform::Windows
    &&& s.len() >= 4
    &&& s[0] == '\\'
    &&& s[1] == '\\'
    &&& s[2] == '?'
    &&& s[3] == '\\'
}

/// Starts with two separators, as a network share or a device does.
pub open spec fn doubly_rooted(s: Seq<char>, platform: Platform) -> bool {
    &&& platform == Platform::Windows
    &&& s.len() >= 2
    &&& is_separator(s[0], platform, false)
    &&& is_separator(s[1], platform, false)
}

/// The length of what stands before the root and the parts of a path: a drive
/// such as `C:`, a device such as `\\.\COM1`, a share such as
/// `\\server\share`, or the first part behind `\\?\`, where `UNC\server\share`
/// counts as one. There is none but on Windows.
pub open spec fn prefix_len(s: Seq<char>, platform: Platform) -> nat {
    if has_drive(s, platform) {
        2
    } else if is_verbatim(s, platform) {
        if s.len() >= 8 && s[4] == 'U' && s[5] == 'N' && s[6] == 'C' && is_separator(
            s[7],
            platform,
            false,
        ) {
            let server = part_end(s, 8, platform, true);
            let share = part_end(s, server + 1, platform, true);
            if share > server + 1 {
                share
            } else {
                server
            }
        } else {
            part_end(s, 4, platform, true)
        }
    } else if doubly_rooted(s, platform) {
        if s.len() >= 4 && s[2] == '.' && is_separator(s[3], platform, false) {
            part_end(s, 4, platform, false)
        } else {
            let server = part_end(s, 2, platform, false);
            let share = part_end(s, server + 1, platform, false);
            if server > 2 && share > server + 1 {
                share
            } else {
                0
            }
        }
    } else {
        0
    }
}

fn starts_verbatim(s: &Vec<char>, platform: Platform) -> (r: bool)
    ensures
        r == is_verbatim(s@, platform),
{
    platform == Platform::Windows && s.len() >= 4 && s[0] == '\\' && s[1] == '\\' && s[2] == '?'
        && s[3] == '\\'
}

/// The end of the part behind the one that ends at `at`; `at` where there is
/// none.
fn end_of_next(s: &Vec<char>, at: usize, platform: Platform, verbatim: bool) -> (r: usize)
    requires
        at <= s@.len(),
    ensures
        ({
            let next = part_end(s@, (at + 1) as nat, platform, verbatim);
            r == if next > at + 1 {
                next
            } else {
                at as nat
            }
        }),
        at <= r <= s@.len(),
{
    if at < s.len() {
        let next: usize = end_of_part(s, at + 1, platform, verbatim);
        if next > at + 1 {
            return next;
        }
    }
    at
}

fn prefix_end(s: &Vec<char>, platform: Platform) -> (r: usize)
    ensures
        r == prefix_len(s@, platform),
        r <= s@.len(),
{
    if starts_with_drive(s, platform) {
        return 2;
    }
    if starts_verbatim(s, platform) {
        if s.len() >= 8 && s[4] == 'U' && s[5] == 'N' && s[6] == 'C' && separates(
            s[7],
            platform,
            false,
        ) {
            let server: usize = end_of_part(s, 8, platform, true);
            return end_of_next(s, server, platform, true);
        }
        return end_of_part(s, 4, platform, true);
    }
    if platform == Platform::Windows && s.len() >= 2 && separates(s[0], platform, false)
        && separates(s[1], platform, false) {
        if s.len() >= 4 && s[2] == '.' && separates(s[3], platform, false) {
            return end_of_part(s, 4, platform, false);
        }
        let server: usize = end_of_part(s, 2, platform, false);
        let share: usize = end_of_next(s, server, platform, false);
        if server > 2 && share > server {
            return share;
        }
    }
    0
}

/// Names a place on its own, wherever it is looked up: a path that starts at
/// the root, on Windows at the root of something.
pub open spec fn is_absolute(path: Seq<char>, platform: Platform) -> bool {
    match platform {
        Platform::Unix => path.len() > 0 && path[0] == '/',
        Platform::Windows => {
            &&& prefix_len(path, platform) > 0
            &&& has_drive(path, platform) ==> path.len() > 2 && is_separator(
                path[2],
                platform,
                false,
            )
        },
    }
}

/// The parts of a path between its separators, empty ones included.
pub open spec fn split_parts(s: Seq<char>, platform: Platform) -> Seq<Seq<char>>
    decreases s.len(),
{
    if s.len() == 0 {
        seq![Seq::empty()]
    } else {
        let parts = split_parts(s.drop_last(), platform);
        if is_separator(s.last(), platform, false) {
            parts.push(Seq::empty())
        } else {
            parts.drop_last().push(parts.last().push(s.last()))
        }
    }
}

/// Why a path is refused.
#[derive(Debug, Clone, Copy, PartialEq, Eq, Structural)]
pub enum PathFault {
    /// It names a place on its own.
    Absolute,
    /// It starts at a root, or a part of it starts with a drive.
    DriveOrRoot,
    /// It starts with `.`.
    CurrentDir,
    /// It has a `..` in it.
    ParentDir,
    /// No name is left in it.
    Empty,
}

impl PathFault {
    /// What the fault is reported as.
    pub open spec fn text(self, path: Seq<char>) -> Seq<char> {
        match self {
            PathFault::Absolute => "rejecting absolute path in transfer: "@ + path,
            PathFault::DriveOrRoot => "rejecting drive/root component in transfer path: "@ + path,
            PathFault::CurrentDir => "rejecting `.` component in transfer path: "@ + path,
            PathFault::ParentDir => "rejecting `..` component in transfer path: "@ + path,
            PathFault::Empty => "transfer path is empty"@,
        }
    }

    fn to_error(self, path: &str) -> (e: Error)
        ensures
            e matches Error::Protocol(m) && m@ == self.text(path@),
    {
        let m = match self {
            PathFault::Absolute => "rejecting absolute path in transfer: ".to_owned().concat(path),
            PathFault::DriveOrRoot => "rejecting drive/root component in transfer path: ".to_owned().concat(
                path,
            ),
            PathFault::CurrentDir => "rejecting `.` component in transfer path: ".to_owned().concat(
                path,
            ),
            PathFault::ParentDir => "rejecting `..` component in transfer path: ".to_owned().concat(
                path,
            ),
            PathFault::Empty => "transfer path is empty".to_owned(),
        };
        Error::Protocol(m)
    }
}

/// What one part of a path means.
#[derive(Debug, Clone, Copy, PartialEq, Eq, Structural)]
pub enum PartKind {
    /// Nothing: a repeated or trailing separator, or a `.` that is not the first.
    Void,
    /// A leading `.`.
    Current,
    /// A `..`.
    Parent,
    /// One that starts with a drive, which would lead to that drive.
    Drive,
    /// A name.
    Name,
}

/// What a part means; `first` for the part before the first separator.
pub open spec fn part_kind(part: Seq<char>, first: bool, platform: Platform) -> PartKind {
    if part.len() == 0 {
        PartKind::Void
    } else if part == seq!['.'] {
        if first {
            PartKind::Current
        } else {
            PartKind::Void
        }
    } else if part == seq!['.', '.'] {
        PartKind::Parent
    } else if has_drive(part, platform) {
        PartKind::Drive
    } else {
        PartKind::Name
    }
}

/// The names in the parts of a path, or the first fault among them.
pub open spec fn names_in(
    parts: Seq<Seq<char>>,
    first: bool,
    platform: Platform,
) -> core::result::Result<Seq<Seq<char>>, PathFault>
    decreases parts.len(),
{
    if parts.len() == 0 {
        Ok(Seq::empty())
    } else {
        match part_kind(parts[0], first, platform) {
            PartKind::Current => Err(PathFault::CurrentDir),
            PartKind::Parent => Err(PathFault::ParentDir),
            PartKind::Drive => Err(PathFault::DriveOrRoot),
            PartKind::Void => names_in(parts.skip(1), false, platform),
            PartKind::Name => match names_in(parts.skip(1), false, platform) {
                Ok(rest) => Ok(seq![parts[0]] + rest),
                Err(fault) => Err(fault),
            },
        }
    }
}

/// Names joined by the separator that the system writes.
pub open spec fn join_names(names: Seq<Seq<char>>, platform: Platform) -> Seq<char>
    decreases names.len(),
{
    if names.len() == 0 {
        Seq::empty()
    } else if names.len() == 1 {
        names[0]
    } else {
        join_names(names.drop_last(), platform) + seq![main_separator(platform)] + names.last()
    }
}

/// The names that a safe relative path consists of.
pub open spec fn safe_names(path: Seq<char>, platform: Platform) -> core::result::Result<
    Seq<Seq<char>>,
    PathFault,
> {
    if is_absolute(path, platform) {
        Err(PathFault::Absolute)
    } else if path.len() > 0 && is_separator(path[0], platform, false) {
        Err(PathFault::DriveOrRoot)
    } else {
        match names_in(split_parts(path, platform), true, platform) {
            Err(fault) => Err(fault),
            Ok(names) => if names.len() == 0 {
                Err(PathFault::Empty)
            } else {
                Ok(names)
            },
        }
    }
}

/// A name that stays in the directory it is looked up in.
pub open spec fn is_plain_name(name: Seq<char>, platform: Platform) -> bool {
    &&& name.len() > 0
    &&& has_no_separator(name, platform)
    &&& name != seq!['.']
    &&& name != seq!['.', '.']
    &&& !has_drive(name, platform)
}

/// Holds no separator of the system: no `/`, and on Windows no `\` either.
pub open spec fn has_no_separator(s: Seq<char>, platform: Platform) -> bool {
    &&& !s.contains('/')
    &&& platform == Platform::Windows ==> !s.contains('\\')
}

proof fn lemma_no_separator(s: Seq<char>, platform: Platform)
    ensures
        has_no_separator(s, platform) <==> (forall|i: int|
            0 <= i < s.len() ==> !is_separator(#[trigger] s[i], platform, false)),
{
    if has_no_separator(s, platform) {
        assert forall|i: int| 0 <= i < s.len() implies !is_separator(
            #[trigger] s[i],
            platform,
            false,
        ) by {
            assert(s.contains(s[i]));
        }
    }
}

proof fn lemma_split_parts(s: Seq<char>, platform: Platform)
    ensures
        split_parts(s, platform).len() > 0,
        forall|i: int|
            0 <= i < split_parts(s, platform).len() ==> has_no_separator(
                #[trigger] split_parts(s, platform)[i],
                platform,
            ),
    decreases s.len(),
{
    if s.len() > 0 {
        lemma_split_parts(s.drop_last(), platform);
        let parts = split_parts(s.drop_last(), platform);
        let all = split_parts(s, platform);
        let last = parts.len() - 1;
        assert(has_no_separator(parts[last], platform));
        lemma_no_separator(parts[last], platform);
        assert forall|i: int| 0 <= i < all.len() implies has_no_separator(
            #[trigger] all[i],
            platform,
        ) by {
            if i < last {
                assert(all[i] == parts[i]);
            } else {
                lemma_no_separator(all[i], platform);
            }
        }
    }
}

proof fn lemma_names_plain(parts: Seq<Seq<char>>, first: bool, platform: Platform)
    requires
        forall|i: int| 0 <= i < parts.len() ==> has_no_separator(#[trigger] parts[i], platform),
    ensures
        names_in(parts, first, platform) matches Ok(names) ==> forall|i: int|
            0 <= i < names.len() ==> is_plain_name(#[trigger] names[i], platform),
    decreases parts.len(),
{
    if parts.len() > 0 {
        let rest = parts.skip(1);
        assert forall|i: int| 0 <= i < rest.len() implies has_no_separator(
            #[trigger] rest[i],
            platform,
        ) by {
            assert(rest[i] == parts[i + 1]);
        }
        lemma_names_plain(rest, false, platform);
        assert(has_no_separator(parts[0], platform));
    }
}

/// A path that is accepted stays below the directory it is received into, on
/// every system: every component of it is a plain name. None is empty, `.` or
/// `..`, none holds a `/`, and on Windows none holds a `\` or starts with a
/// drive. No such path is absolute.
pub proof fn law_safe_path_stays_inside(path: Seq<char>, platform: Platform)
    ensures
        safe_names(path, platform) matches Ok(names) ==> {
            &&& names.len() > 0
            &&& forall|i: int|
                0 <= i < names.len() ==> is_plain_name(#[trigger] names[i], platform)
            &&& prefix_len(join_names(names, platform), platform) == 0
            &&& !is_absolute(join_names(names, platform), platform)
        },
{
    lemma_split_parts(path, platform);
    lemma_names_plain(split_parts(path, platform), true, platform);
    if let Ok(names) = safe_names(path, platform) {
        lemma_split_join(names, platform);
        lemma_joined_has_no_prefix(names, platform);
    }
}

/// Whether a path is made of plain names alone, so that it stays below the
/// directory it is looked up in.
pub open spec fn stays_inside(path: Seq<char>, platform: Platform) -> bool {
    &&& !is_absolute(path, platform)
    &&& prefix_len(path, platform) == 0
    &&& exists|names: Seq<Seq<char>>|
        {
            &&& names.len() > 0
            &&& path == #[trigger] join_names(names, platform)
            &&& forall|i: int|
                0 <= i < names.len() ==> is_plain_name(#[trigger] names[i], platform)
        }
}

proof fn lemma_split_plain(name: Seq<char>, platform: Platform)
    requires
        has_no_separator(name, platform),
    ensures
        split_parts(name, platform) == seq![name],
    decreases name.len(),
{
    lemma_no_separator(name, platform);
    if name.len() > 0 {
        let front = name.drop_last();
        lemma_no_separator(front, platform);
        lemma_split_plain(front, platform);
        assert(!is_separator(name[name.len() - 1], platform, false));
        assert(split_parts(name, platform) =~= seq![name]) by {
            assert(front.push(name.last()) =~= name);
        }
    } else {
        assert(name =~= Seq::empty());
    }
}

proof fn lemma_split_append(a: Seq<char>, b: Seq<char>, platform: Platform)
    requires
        has_no_separator(b, platform),
    ensures
        split_parts(a + seq![main_separator(platform)] + b, platform) == split_parts(
            a,
            platform,
        ).push(b),
    decreases b.len(),
{
    let whole = a + seq![main_separator(platform)] + b;
    lemma_no_separator(b, platform);
    if b.len() == 0 {
        assert(whole.drop_last() =~= a);
        assert(b =~= Seq::empty());
    } else {
        let front = b.drop_last();
        lemma_no_separator(front, platform);
        lemma_split_append(a, front, platform);
        assert(whole.drop_last() =~= a + seq![main_separator(platform)] + front);
        assert(!is_separator(b[b.len() - 1], platform, false));
        assert(whole.last() == b.last());
        let parts = split_parts(a, platform).push(front);
        assert(parts.drop_last() =~= split_parts(a, platform));
        assert(front.push(b.last()) =~= b);
    }
}

proof fn lemma_split_join(names: Seq<Seq<char>>, platform: Platform)
    requires
        names.len() > 0,
        forall|i: int| 0 <= i < names.len() ==> is_plain_name(#[trigger] names[i], platform),
    ensures
        split_parts(join_names(names, platform), platform) == names,
        join_names(names, platform).len() >= names[0].len(),
        join_names(names, platform).take(names[0].len() as int) == names[0],
        join_names(names, platform).len() > names[0].len() ==> join_names(
            names,
            platform,
        )[names[0].len() as int] == main_separator(platform),
    decreases names.len(),
{
    assert(is_plain_name(names[0], platform));
    let n = names[0].len() as int;
    if names.len() == 1 {
        lemma_split_plain(names[0], platform);
        assert(seq![names[0]] =~= names);
        assert(names[0].take(n) =~= names[0]);
    } else {
        let front = names.drop_last();
        assert(is_plain_name(names[names.len() - 1], platform));
        lemma_split_join(front, platform);
        lemma_split_append(join_names(front, platform), names.last(), platform);
        assert(front.push(names.last()) =~= names);
        assert(join_names(names, platform).take(n) =~= join_names(front, platform).take(n));
    }
}

proof fn lemma_joined_has_no_prefix(names: Seq<Seq<char>>, platform: Platform)
    requires
        names.len() > 0,
        is_plain_name(names[0], platform),
        join_names(names, platform).len() >= names[0].len(),
        join_names(names, platform).take(names[0].len() as int) == names[0],
        join_names(names, platform).len() > names[0].len() ==> join_names(
            names,
            platform,
        )[names[0].len() as int] == main_separator(platform),
    ensures
        prefix_len(join_names(names, platform), platform) == 0,
        !is_absolute(join_names(names, platform), platform),
        !is_separator(join_names(names, platform)[0], platform, false),
{
    let joined = join_names(names, platform);
    let name = names[0];
    lemma_no_separator(name, platform);
    assert(joined[0] == name[0]) by {
        assert(joined.take(name.len() as int)[0] == joined[0]);
    }
    if name.len() > 1 {
        assert(joined.take(name.len() as int)[1] == joined[1]);
    }
}

proof fn lemma_plain_names_stay(parts: Seq<Seq<char>>, first: bool, platform: Platform)
    requires
        forall|i: int| 0 <= i < parts.len() ==> is_plain_name(#[trigger] parts[i], platform),
    ensures
        names_in(parts, first, platform) == Ok::<Seq<Seq<char>>, PathFault>(parts),
    decreases parts.len(),
{
    if parts.len() > 0 {
        assert(is_plain_name(parts[0], platform));
        let rest = parts.skip(1);
        assert forall|i: int| 0 <= i < rest.len() implies is_plain_name(
            #[trigger] rest[i],
            platform,
        ) by {
            assert(rest[i] == parts[i + 1]);
        }
        lemma_plain_names_stay(rest, false, platform);
        assert(seq![parts[0]] + rest =~= parts);
    } else {
        assert(parts =~= Seq::empty());
    }
}

/// A path in its plainest form stays as it is: what was accepted once is
/// accepted again, with the same result.
pub proof fn law_plain_path_stays(path: Seq<char>, platform: Platform)
    ensures
        safe_names(path, platform) matches Ok(names) ==> safe_names(
            join_names(names, platform),
            platform,
        ) == Ok::<Seq<Seq<char>>, PathFault>(names),
{
    if let Ok(names) = safe_names(path, platform) {
        law_safe_path_stays_inside(path, platform);
        lemma_split_join(names, platform);
        lemma_joined_has_no_prefix(names, platform);
        lemma_plain_names_stay(names, true, platform);
    }
}

fn parts_of(chars: &Vec<char>, platform: Platform) -> (r: Vec<Vec<char>>)
    ensures
        r@.map_values(|p: Vec<char>| p@) == split_parts(chars@, platform),
        r@.len() > 0,
{
    let mut done: Vec<Vec<char>> = Vec::new();
    let mut current: Vec<char> = Vec::new();
    let mut i: usize = 0;
    let ghost f = |p: Vec<char>| p@;
    assert(chars@.take(0) =~= Seq::empty());
    assert(done@.map_values(f).push(current@) =~= split_parts(chars@.take(0), platform));
    while i < chars.len()
        invariant
            i <= chars@.len(),
            f == (|p: Vec<char>| p@),
            done@.map_values(f).push(current@) == split_parts(chars@.take(i as int), platform),
        decreases chars@.len() - i,
    {
        let c: char = chars[i];
        let ghost before = done@;
        let ghost cur = current@;
        let ghost t = chars@.take(i + 1);
        assert(t.drop_last() =~= chars@.take(i as int));
        assert(t.last() == c);
        if separates(c, platform, false) {
            done.push(current);
            current = Vec::new();
            assert(done@.map_values(f) =~= before.map_values(f).push(cur));
            assert(done@.map_values(f).push(current@) =~= split_parts(t, platform));
        } else {
            current.push(c);
            assert(split_parts(chars@.take(i as int), platform).drop_last() =~= done@.map_values(f));
            assert(done@.map_values(f).push(current@) =~= split_parts(t, platform));
        }
        i += 1;
    }
    assert(chars@.take(i as int) =~= chars@);
    let ghost before = done@;
    let ghost cur = current@;
    done.push(current);
    assert(done@.map_values(f) =~= before.map_values(f).push(cur));
    done
}

fn kind_of(part: &Vec<char>, first: bool, platform: Platform) -> (r: PartKind)
    ensures
        r == part_kind(part@, first, platform),
{
    if part.len() == 0 {
        PartKind::Void
    } else if part.len() == 1 && part[0] == '.' {
        assert(part@ =~= seq!['.']);
        if first {
            PartKind::Current
        } else {
            PartKind::Void
        }
    } else if part.len() == 2 && part[0] == '.' && part[1] == '.' {
        assert(part@ =~= seq!['.', '.']);
        assert(part@ != seq!['.']) by {
            assert(part@.len() == 2);
        }
        PartKind::Parent
    } else if starts_with_drive(part, platform) {
        PartKind::Drive
    } else {
        PartKind::Name
    }
}

fn starts_absolute(chars: &Vec<char>, platform: Platform) -> (r: bool)
    ensures
        r == is_absolute(chars@, platform),
{
    match platform {
        Platform::Unix => chars.len() > 0 && chars[0] == '/',
        Platform::Windows => prefix_end(chars, platform) > 0 && (!starts_with_drive(chars, platform)
            || (chars.len() > 2 && separates(chars[2], platform, false))),
    }
}

fn write_separator(platform: Platform) -> (r: char)
    ensures
        r == main_separator(platform),
{
    match platform {
        Platform::Unix => '/',
        Platform::Windows => '\\',
    }
}

/// Accepts a relative path made of plain names and returns it in its plainest
/// form: one separator between names, none at the end. Refuses every path that
/// could leave the directory it is received into on `platform`.
pub fn sanitize_relative_path(path: &str, platform: Platform) -> (r: Result<String>)
    ensures
        match safe_names(path@, platform) {
            Ok(names) => r matches Ok(clean) && clean@ == join_names(names, platform),
            Err(fault) => r matches Err(Error::Protocol(m)) && m@ == fault.text(path@),
        },
{
    let chars: Vec<char> = chars_of(path);
    if starts_absolute(&chars, platform) {
        return Err(PathFault::Absolute.to_error(path));
    }
    if chars.len() > 0 && separates(chars[0], platform, false) {
        return Err(PathFault::DriveOrRoot.to_error(path));
    }
    let parts: Vec<Vec<char>> = parts_of(&chars, platform);
    let ghost f = |p: Vec<char>| p@;
    let ghost values = parts@.map_values(f);
    assert(parts@.map_values(|p: Vec<char>| p@) =~= values);
    let mut clean: Vec<char> = Vec::new();
    let ghost mut names: Seq<Seq<char>> = Seq::empty();
    let mut empty: bool = true;
    let mut i: usize = 0;
    assert(values.skip(0) =~= values);
    proof {
        match names_in(values, true, platform) {
            Ok(rest) => {
                assert(names + rest =~= rest);
            },
            Err(_) => {},
        }
    }
    while i < parts.len()
        invariant
            f == (|p: Vec<char>| p@),
            values == parts@.map_values(f),
            values == split_parts(path@, platform),
            i <= parts@.len(),
            !is_absolute(path@, platform),
            !(path@.len() > 0 && is_separator(path@[0], platform, false)),
            clean@ == join_names(names, platform),
            empty == (names.len() == 0),
            names_in(values, true, platform) == match names_in(
                values.skip(i as int),
                i == 0,
                platform,
            ) {
                Ok(rest) => Ok(names + rest),
                Err(fault) => Err(fault),
            },
        decreases parts@.len() - i,
    {
        let ghost tail = values.skip(i as int);
        assert(tail[0] == parts@[i as int]@);
        assert(tail.skip(1) =~= values.skip(i + 1));
        match kind_of(&parts[i], i == 0, platform) {
            PartKind::Current => {
                return Err(PathFault::CurrentDir.to_error(path));
            },
            PartKind::Parent => {
                return Err(PathFault::ParentDir.to_error(path));
            },
            PartKind::Drive => {
                return Err(PathFault::DriveOrRoot.to_error(path));
            },
            PartKind::Void => {},
            PartKind::Name => {
                let ghost before = names;
                let ghost part = parts@[i as int]@;
                if !empty {
                    clean.push(write_separator(platform));
                }
                clean.extend_from_slice(parts[i].as_slice());
                proof {
                    names = names.push(part);
                    assert(names.drop_last() =~= before);
                    assert(clean@ =~= join_names(names, platform));
                    match names_in(tail.skip(1), false, platform) {
                        Ok(rest) => {
                            assert(before + (seq![part] + rest) =~= names + rest);
                        },
                        Err(_) => {},
                    }
                }
                empty = false;
            },
        }
        i += 1;
    }
    proof {
        assert(values.skip(i as int) =~= Seq::empty());
        assert(names + Seq::<Seq<char>>::empty() =~= names);
    }
    if empty {
        return Err(PathFault::Empty.to_error(path));
    }
    Ok(string_of(clean.as_slice()))
}

/// What is left of the parts of a path without what does not count at its end:
/// separators, and `.` behind one, which counts in a verbatim path.
pub open spec fn without_void_end(s: Seq<char>, platform: Platform, verbatim: bool) -> Seq<char>
    decreases s.len(),
{
    if s.len() > 0 && is_separator(s.last(), platform, verbatim) {
        without_void_end(s.drop_last(), platform, verbatim)
    } else if !verbatim && s.len() > 1 && s.last() == '.' && is_separator(
        s[s.len() - 2],
        platform,
        verbatim,
    ) {
        without_void_end(s.take(s.len() - 2), platform, verbatim)
    } else {
        s
    }
}

/// What stands before the last part of a path, its separator included.
pub open spec fn dir_part(s: Seq<char>, platform: Platform, verbatim: bool) -> Seq<char>
    decreases s.len(),
{
    if s.len() == 0 || is_separator(s.last(), platform, verbatim) {
        s
    } else {
        dir_part(s.drop_last(), platform, verbatim)
    }
}

/// A path behind its prefix, without what does not count at its end.
pub open spec fn body_of(path: Seq<char>, platform: Platform) -> Seq<char> {
    without_void_end(
        path.skip(prefix_len(path, platform) as int),
        platform,
        is_verbatim(path, platform),
    )
}

/// The name that a path ends in; `None` for one that ends in `..`, or has no
/// name.
pub open spec fn last_name(path: Seq<char>, platform: Platform) -> Option<Seq<char>> {
    let t = body_of(path, platform);
    let name = t.skip(dir_part(t, platform, is_verbatim(path, platform)).len() as int);
    if name.len() == 0 || name == seq!['.'] || name == seq!['.', '.'] {
        None
    } else {
        Some(name)
    }
}

/// Where the parts of a path begin, where its last part begins, and where what
/// counts of it ends.
fn last_part_span(chars: &Vec<char>, platform: Platform) -> (r: (usize, usize, usize))
    ensures
        r.0 == prefix_len(chars@, platform),
        r.0 <= r.1 <= r.2 <= chars@.len(),
        chars@.subrange(r.0 as int, r.2 as int) == body_of(chars@, platform),
        chars@.subrange(r.0 as int, r.1 as int) == dir_part(
            body_of(chars@, platform),
            platform,
            is_verbatim(chars@, platform),
        ),
{
    let base: usize = prefix_end(chars, platform);
    let verbatim: bool = starts_verbatim(chars, platform);
    let mut end: usize = chars.len();
    let mut going: bool = true;
    let ghost rest = chars@.skip(base as int);
    assert(chars@.subrange(base as int, end as int) =~= rest);
    while going
        invariant
            base <= end <= chars@.len(),
            without_void_end(rest, platform, verbatim) == without_void_end(
                chars@.subrange(base as int, end as int),
                platform,
                verbatim,
            ),
            !going ==> without_void_end(
                chars@.subrange(base as int, end as int),
                platform,
                verbatim,
            ) == chars@.subrange(base as int, end as int),
        decreases
            2 * end + (if going {
                1int
            } else {
                0
            }),
    {
        let ghost t = chars@.subrange(base as int, end as int);
        if end > base && separates(chars[end - 1], platform, verbatim) {
            assert(t.drop_last() =~= chars@.subrange(base as int, end - 1));
            end -= 1;
        } else if !verbatim && end - base > 1 && chars[end - 1] == '.' && separates(
            chars[end - 2],
            platform,
            verbatim,
        ) {
            assert(t.take(t.len() - 2) =~= chars@.subrange(base as int, end - 2));
            end -= 2;
        } else {
            going = false;
        }
    }
    let ghost t = chars@.subrange(base as int, end as int);
    let mut start: usize = end;
    while start > base && !separates(chars[start - 1], platform, verbatim)
        invariant
            base <= start <= end <= chars@.len(),
            dir_part(t, platform, verbatim) == dir_part(
                chars@.subrange(base as int, start as int),
                platform,
                verbatim,
            ),
        decreases start,
    {
        assert(chars@.subrange(base as int, start as int).drop_last() =~= chars@.subrange(
            base as int,
            start - 1,
        ));
        start -= 1;
    }
    (base, start, end)
}

/// The name that a path ends in.
pub fn path_name(path: &str, platform: Platform) -> (r: Option<String>)
    ensures
        match last_name(path@, platform) {
            Some(name) => r matches Some(s) && s@ == name,
            None => r is None,
        },
{
    let chars: Vec<char> = chars_of(path);
    let (_, start, end): (usize, usize, usize) = last_part_span(&chars, platform);
    let name: &[char] = vstd::slice::slice_subrange(chars.as_slice(), start, end);
    let ghost t = body_of(path@, platform);
    proof {
        assert(name@ =~= t.skip(
            dir_part(t, platform, is_verbatim(path@, platform)).len() as int,
        ));
        if name@.len() == 1 && name@[0] == '.' {
            assert(name@ =~= seq!['.']);
        }
        if name@.len() == 2 && name@[0] == '.' && name@[1] == '.' {
            assert(name@ =~= seq!['.', '.']);
        }
    }
    if name.len() == 0 || (name.len() == 1 && name[0] == '.') || (name.len() == 2 && name[0] == '.'
        && name[1] == '.') {
        return None;
    }
    Some(string_of(name))
}

/// A directory as it stands before a name in it: with a separator at its end,
/// unless it has one, is empty or is a mere drive.
pub open spec fn as_parent(dir: Seq<char>, platform: Platform) -> Seq<char> {
    if dir.len() == 0 || is_separator(dir.last(), platform, is_verbatim(dir, platform)) || (
    has_drive(dir, platform) && dir.len() == 2) {
        dir
    } else {
        dir.push(main_separator(platform))
    }
}

/// A directory as it stands before a name in it.
pub fn parent_text(dir: &str, platform: Platform) -> (r: String)
    ensures
        r@ == as_parent(dir@, platform),
{
    let mut chars: Vec<char> = chars_of(dir);
    let n: usize = chars.len();
    if n > 0 && !separates(chars[n - 1], platform, starts_verbatim(&chars, platform)) && !(
    starts_with_drive(&chars, platform) && n == 2) {
        chars.push(write_separator(platform));
    }
    string_of(chars.as_slice())
}

/// Where the progress of sending a path is kept: next to it, under a hidden
/// name; `None` for a root, which has no place next to it.
pub open spec fn resume_file(path: Seq<char>, platform: Platform) -> Option<Seq<char>> {
    let t = body_of(path, platform);
    if t.len() == 0 {
        None
    } else {
        match last_name(path, platform) {
            Some(name) => Some(
                path.take(prefix_len(path, platform) as int) + dir_part(
                    t,
                    platform,
                    is_verbatim(path, platform),
                ) + "."@ + name + ".hyx-resume"@,
            ),
            None => Some(path),
        }
    }
}

/// Where the progress of sending a path is kept.
pub fn resume_state_path(path: &str, platform: Platform) -> (r: Option<String>)
    ensures
        match resume_file(path@, platform) {
            Some(text) => r matches Some(s) && s@ == text,
            None => r is None,
        },
{
    let chars: Vec<char> = chars_of(path);
    let (base, start, end): (usize, usize, usize) = last_part_span(&chars, platform);
    if end == base {
        assert(body_of(path@, platform) =~= Seq::empty());
        return None;
    }
    assert(body_of(path@, platform).len() > 0);
    match path_name(path, platform) {
        Some(name) => {
            let mut out: String = string_of(
                vstd::slice::slice_subrange(chars.as_slice(), 0, start),
            );
            assert(out@ =~= path@.take(base as int) + path@.subrange(base as int, start as int));
            out.append(".");
            out.append(name.as_str());
            out.append(".hyx-resume");
            Some(out)
        },
        None => Some(crate::text::string_copy(path)),
    }
}

/// Every path made of plain names is accepted, with just these names, however
/// many there are and however deep they lead.
pub proof fn law_plain_names_are_accepted(names: Seq<Seq<char>>, platform: Platform)
    requires
        names.len() > 0,
        forall|i: int| 0 <= i < names.len() ==> is_plain_name(#[trigger] names[i], platform),
    ensures
        safe_names(join_names(names, platform), platform) == Ok::<Seq<Seq<char>>, PathFault>(names),
{
    lemma_split_join(names, platform);
    assert(is_plain_name(names[0], platform));
    lemma_joined_has_no_prefix(names, platform);
    lemma_plain_names_stay(names, true, platform);
}

/// A path is cut at its separators and nowhere else: text without one is a
/// single part, and a separator between two texts keeps their parts apart.
pub proof fn law_paths_are_cut_at_separators(
    a: Seq<char>,
    c: char,
    b: Seq<char>,
    platform: Platform,
)
    requires
        c == '/' || (c == '\\' && platform == Platform::Windows),
    ensures
        !b.contains('/') && (platform == Platform::Windows ==> !b.contains('\\')) ==> split_parts(
            b,
            platform,
        ) == seq![b],
        split_parts(a + seq![c] + b, platform) == split_parts(a, platform) + split_parts(
            b,
            platform,
        ),
    decreases b.len(),
{
    if has_no_separator(b, platform) {
        lemma_split_plain(b, platform);
    }
    let whole = a + seq![c] + b;
    lemma_split_parts(a, platform);
    if b.len() == 0 {
        assert(whole.drop_last() =~= a);
        assert(split_parts(whole, platform) =~= split_parts(a, platform) + split_parts(b, platform));
    } else {
        let front = b.drop_last();
        law_paths_are_cut_at_separators(a, c, front, platform);
        lemma_split_parts(front, platform);
        assert(whole.drop_last() =~= a + seq![c] + front);
        assert(whole.last() == b.last());
        let x = split_parts(a, platform);
        let y = split_parts(front, platform);
        assert((x + y).drop_last() =~= x + y.drop_last());
        assert((x + y).last() == y.last());
        assert(split_parts(whole, platform) =~= x + split_parts(b, platform));
    }
}

/// A part of a path that says nothing: empty, or a `.`.
pub open spec fn says_nothing(part: Seq<char>) -> bool {
    part.len() == 0 || part == seq!['.']
}

/// A path is accepted if and only if it does not start at a root, no part of it
/// is `..` or starts with a drive, it does not begin with `.`, and it has a name.
/// What is accepted is its parts, in order, without those that say nothing.
pub proof fn law_accepted_names_are_the_parts(path: Seq<char>, platform: Platform)
    ensures
        ({
            let parts = split_parts(path, platform);
            &&& safe_names(path, platform) is Ok <==> {
                &&& !is_absolute(path, platform)
                &&& path.len() > 0
                &&& path[0] != '/'
                &&& platform == Platform::Windows ==> path[0] != '\\'
                &&& parts[0] != seq!['.']
                &&& forall|i: int|
                    0 <= i < parts.len() ==> #[trigger] parts[i] != seq!['.', '.'] && !has_drive(
                        parts[i],
                        platform,
                    )
                &&& exists|i: int| 0 <= i < parts.len() && !says_nothing(#[trigger] parts[i])
            }
            &&& safe_names(path, platform) matches Ok(names) ==> names == parts.filter(
                |p: Seq<char>| !says_nothing(p),
            )
        }),
{
    let parts = split_parts(path, platform);
    lemma_split_parts(path, platform);
    lemma_names_are_parts(parts, true, platform);
    let p = |p: Seq<char>| !says_nothing(p);
    if path.len() == 0 {
        assert(parts =~= seq![Seq::empty()]);
        assert(parts[0].len() == 0);
    }
    if names_in(parts, true, platform) is Ok {
        let names = parts.filter(p);
        if names.len() > 0 {
            parts.lemma_filter_pred(p, 0);
            lemma_filtered_is_there(parts, p);
        }
        if exists|i: int| 0 <= i < parts.len() && !says_nothing(#[trigger] parts[i]) {
            let i = choose|i: int| 0 <= i < parts.len() && !says_nothing(#[trigger] parts[i]);
            parts.lemma_filter_contains(p, i);
        }
    }
}

proof fn lemma_filtered_is_there(parts: Seq<Seq<char>>, p: spec_fn(Seq<char>) -> bool)
    requires
        parts.filter(p).len() > 0,
    ensures
        exists|i: int| 0 <= i < parts.len() && p(#[trigger] parts[i]),
    decreases parts.len(),
{
    reveal(Seq::filter);
    if parts.len() > 0 {
        if p(parts.last()) {
            assert(p(parts[parts.len() - 1]));
        } else {
            lemma_filtered_is_there(parts.drop_last(), p);
            let i = choose|i: int|
                0 <= i < parts.drop_last().len() && p(#[trigger] parts.drop_last()[i]);
            assert(p(parts[i]));
        }
    }
}

proof fn lemma_filter_front(parts: Seq<Seq<char>>, p: spec_fn(Seq<char>) -> bool)
    requires
        parts.len() > 0,
    ensures
        parts.filter(p) == (if p(parts[0]) {
            seq![parts[0]] + parts.skip(1).filter(p)
        } else {
            parts.skip(1).filter(p)
        }),
    decreases parts.len(),
{
    reveal(Seq::filter);
    if parts.len() == 1 {
        assert(parts.drop_last() =~= Seq::empty());
        assert(parts.skip(1) =~= Seq::empty());
        assert(parts.filter(p) =~= (if p(parts[0]) {
            seq![parts[0]] + parts.skip(1).filter(p)
        } else {
            parts.skip(1).filter(p)
        }));
    } else {
        lemma_filter_front(parts.drop_last(), p);
        assert(parts.drop_last().skip(1) =~= parts.skip(1).drop_last());
        assert(parts.skip(1).last() == parts.last());
        assert(parts.filter(p) =~= (if p(parts[0]) {
            seq![parts[0]] + parts.skip(1).filter(p)
        } else {
            parts.skip(1).filter(p)
        }));
    }
}

proof fn lemma_names_are_parts(parts: Seq<Seq<char>>, first: bool, platform: Platform)
    ensures
        names_in(parts, first, platform) is Ok <==> (first && parts.len() > 0 ==> parts[0] != seq![
            '.',
        ]) && forall|i: int|
            0 <= i < parts.len() ==> #[trigger] parts[i] != seq!['.', '.'] && !has_drive(
                parts[i],
                platform,
            ),
        names_in(parts, first, platform) matches Ok(names) ==> names == parts.filter(
            |p: Seq<char>| !says_nothing(p),
        ),
    decreases parts.len(),
{
    let p = |p: Seq<char>| !says_nothing(p);
    if parts.len() == 0 {
        reveal(Seq::filter);
        assert(parts.filter(p) =~= Seq::empty());
    } else {
        let rest = parts.skip(1);
        lemma_names_are_parts(rest, false, platform);
        lemma_filter_front(parts, p);
        let dots = seq!['.', '.'];
        assert(dots.len() == 2);
        assert(seq!['.'].len() == 1);
        if forall|i: int|
            0 <= i < rest.len() ==> #[trigger] rest[i] != dots && !has_drive(rest[i], platform) {
            if parts[0] != dots && !has_drive(parts[0], platform) {
                assert forall|i: int| 0 <= i < parts.len() implies #[trigger] parts[i] != dots
                    && !has_drive(parts[i], platform) by {
                    if i > 0 {
                        assert(rest[i - 1] == parts[i]);
                    }
                }
            }
        }
        if forall|i: int|
            0 <= i < parts.len() ==> #[trigger] parts[i] != dots && !has_drive(parts[i], platform) {
            assert forall|i: int| 0 <= i < rest.len() implies #[trigger] rest[i] != dots
                && !has_drive(rest[i], platform) by {
                assert(rest[i] == parts[i + 1]);
            }
            assert(parts[0] != dots);
        }
    }
}

/// A path is absolute on Unix where it starts with `/`. On Windows it is where
/// it starts with a drive and a separator, and wherever it starts with two
/// separators, a server and a share, with `\\.\` or with `\\?\`.
pub proof fn law_absolute_paths_start_at_a_root(
    rest: Seq<char>,
    server: Seq<char>,
    share: Seq<char>,
    letter: char,
    one: char,
    two: char,
)
    requires
        'a' <= letter <= 'z' || 'A' <= letter <= 'Z',
        one == '/' || one == '\\',
        two == '/' || two == '\\',
        server.len() > 0,
        share.len() > 0,
        has_no_separator(server, Platform::Windows),
        has_no_separator(share, Platform::Windows),
        rest.len() > 0 ==> rest[0] == '/' || rest[0] == '\\',
    ensures
        is_absolute(seq!['/'] + rest, Platform::Unix),
        is_absolute(seq![letter, ':', one] + rest, Platform::Windows),
        !is_absolute(seq![letter, ':'] + server, Platform::Windows),
        is_absolute(seq![one, two] + server + seq![two] + share + rest, Platform::Windows),
        !is_absolute(server, Platform::Unix),
{
    lemma_no_separator(server, Platform::Windows);
    lemma_no_separator(share, Platform::Windows);
    assert(!is_separator(server[0], Platform::Windows, false));
    let drive = seq![letter, ':'] + server;
    assert(drive[2] == server[0]);
    let unc = seq![one, two] + server + seq![two] + share + rest;
    let n = server.len();
    assert(unc[2] == server[0]);
    if is_verbatim(unc, Platform::Windows) {
        assert(part_end(unc, 4, Platform::Windows, true) >= 4) by {
            lemma_part_end_from(unc, 4, Platform::Windows, true);
        }
        lemma_part_end_from(unc, 8, Platform::Windows, true);
        lemma_part_end_from(
            unc,
            part_end(unc, 8, Platform::Windows, true) + 1,
            Platform::Windows,
            true,
        );
    } else {
        lemma_part_end_from(unc, 4, Platform::Windows, false);
        assert forall|i: int| 2 <= i < 2 + n implies !is_separator(
            #[trigger] unc[i],
            Platform::Windows,
            false,
        ) by {
            assert(unc[i] == server[i - 2]);
        }
        lemma_part_end_is(unc, 2, 2 + n, Platform::Windows);
        assert forall|i: int| 3 + n <= i < 3 + n + share.len() implies !is_separator(
            #[trigger] unc[i],
            Platform::Windows,
            false,
        ) by {
            assert(unc[i] == share[i - 3 - n]);
        }
        lemma_part_end_is(unc, 3 + n, 3 + n + share.len(), Platform::Windows);
    }
    let first = server[0];
    assert(server.contains(first));
}

proof fn lemma_part_end_from(s: Seq<char>, from: nat, platform: Platform, verbatim: bool)
    ensures
        part_end(s, from, platform, verbatim) >= from,
    decreases s.len() - from,
{
    if from < s.len() && !is_separator(s[from as int], platform, verbatim) {
        lemma_part_end_from(s, from + 1, platform, verbatim);
    }
}

proof fn lemma_part_end_is(s: Seq<char>, from: nat, end: nat, platform: Platform)
    requires
        from <= end <= s.len(),
        forall|i: int| from <= i < end ==> !is_separator(#[trigger] s[i], platform, false),
        end < s.len() ==> is_separator(s[end as int], platform, false),
    ensures
        part_end(s, from, platform, false) == end,
    decreases end - from,
{
    if from < end {
        lemma_part_end_is(s, from + 1, end, platform);
    }
}

/// A path ends in its last name: whatever directory it stands in, and with or
/// without separators behind it, the name is found, and the progress of sending
/// it is kept in the same directory, under the name with a point before it and
/// `.hyx-resume` behind it. On Windows this is said of paths that start with
/// neither two separators nor a drive.
pub proof fn law_last_name_is_found(
    dir: Seq<char>,
    name: Seq<char>,
    c: char,
    n: nat,
    platform: Platform,
)
    requires
        name.len() > 0,
        name != seq!['.'],
        name != seq!['.', '.'],
        has_no_separator(name, platform),
        is_separator(c, platform, false),
        dir.len() > 0 ==> is_separator(dir.last(), platform, false),
        platform == Platform::Windows ==> !has_drive(dir + name, platform) && !doubly_rooted(
            dir + name + repeated(c, n),
            platform,
        ),
    ensures
        last_name(dir + name + repeated(c, n), platform) == Some(name),
        resume_file(dir + name + repeated(c, n), platform) == Some(
            dir + "."@ + name + ".hyx-resume"@,
        ),
{
    let path = dir + name + repeated(c, n);
    let t = dir + name;
    lemma_no_separator(name, platform);
    assert(path.len() >= 1);
    if platform == Platform::Windows {
        if has_drive(path, platform) {
            if t.len() >= 2 {
                assert(path[0] == t[0] && path[1] == t[1]);
            } else {
                assert(path[1] == c);
            }
        }
        if is_verbatim(path, platform) {
            assert(doubly_rooted(path, platform));
        }
    }
    assert(prefix_len(path, platform) == 0);
    assert(path.skip(0) =~= path);
    lemma_voids_go(t, c, n, platform);
    assert(t.last() == name.last());
    assert(!is_separator(name[name.len() - 1], platform, false));
    assert(without_void_end(t, platform, false) == t) by {
        if t.len() > 1 && t.last() == '.' && is_separator(t[t.len() - 2], platform, false) {
            if name.len() >= 2 {
                assert(t[t.len() - 2] == name[name.len() - 2]);
            } else {
                assert(name =~= seq!['.']);
            }
        }
    }
    lemma_dir_is(dir, name, platform);
    assert(t.skip(dir.len() as int) =~= name);
    assert(path.take(0) =~= Seq::empty());
    assert(Seq::<char>::empty() + dir + "."@ + name + ".hyx-resume"@ =~= dir + "."@ + name
        + ".hyx-resume"@);
}

/// A character, so many times.
pub open spec fn repeated(c: char, n: nat) -> Seq<char> {
    Seq::new(n, |i: int| c)
}

proof fn lemma_voids_go(t: Seq<char>, c: char, n: nat, platform: Platform)
    requires
        is_separator(c, platform, false),
    ensures
        without_void_end(t + repeated(c, n), platform, false) == without_void_end(
            t,
            platform,
            false,
        ),
    decreases n,
{
    if n > 0 {
        lemma_voids_go(t, c, (n - 1) as nat, platform);
        let s = t + repeated(c, n);
        assert(s.drop_last() =~= t + repeated(c, (n - 1) as nat));
        assert(s.last() == c);
    } else {
        assert(t + repeated(c, n) =~= t);
    }
}

proof fn lemma_dir_is(dir: Seq<char>, name: Seq<char>, platform: Platform)
    requires
        has_no_separator(name, platform),
        dir.len() > 0 ==> is_separator(dir.last(), platform, false),
    ensures
        dir_part(dir + name, platform, false) == dir,
    decreases name.len(),
{
    lemma_no_separator(name, platform);
    if name.len() == 0 {
        assert(dir + name =~= dir);
    } else {
        let front = name.drop_last();
        lemma_no_separator(front, platform);
        lemma_dir_is(dir, front, platform);
        assert((dir + name).drop_last() =~= dir + front);
        assert(!is_separator(name[name.len() - 1], platform, false));
    }
}

/// A directory stands before a name in it with one separator between them: none
/// is added where there is one, where there is no directory, or behind a mere
/// drive, and nothing is taken away.
pub proof fn law_directory_and_name_are_kept_apart(dir: Seq<char>, platform: Platform)
    ensures
        ({
            let t = as_parent(dir, platform);
            &&& t.len() >= dir.len()
            &&& t.take(dir.len() as int) == dir
            &&& dir.len() > 2 ==> is_separator(t.last(), platform, is_verbatim(dir, platform))
            &&& dir.len() > 0 && platform == Platform::Unix ==> t.last() == '/'
            &&& dir.len() > 0 && is_separator(dir.last(), platform, is_verbatim(dir, platform))
                ==> t == dir
            &&& dir.len() == 0 ==> t == dir
            &&& t.len() <= dir.len() + 1
        }),
{
    let t = as_parent(dir, platform);
    assert(t.take(dir.len() as int) =~= dir);
}

} // verus!
