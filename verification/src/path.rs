//! Paths as texts: their parts, how they are joined, and which lies under which.
use vstd::prelude::*;
use vstd::slice::{slice_subrange, slice_to_vec};

use vstd::utf8::{decode_utf8, valid_utf8};

use crate::text::{
    chars_of, find_char, find_char_in, law_character_is_found_first, lemma_find_char, read_utf8,
    same, same_chars, string_of, texts,
};

verus! {

/// The names in a path, without `.` and without what repeated slashes enclose.
pub open spec fn names(path: Seq<char>) -> Seq<Seq<char>>
    decreases path.len(),
{
    let k = find_char(path, '/') as int;
    let name = path.take(k);
    let first = if name.len() == 0 || name == seq!['.'] {
        Seq::empty()
    } else {
        seq![name]
    };
    if k < path.len() {
        first + names(path.skip(k + 1))
    } else {
        first
    }
}

pub open spec fn is_absolute(path: Seq<char>) -> bool {
    path.len() > 0 && path[0] == '/'
}

/// A path that is not absolute begins with `.`.
pub open spec fn begins_here(path: Seq<char>) -> bool {
    path.take(find_char(path, '/') as int) == seq!['.']
}

/// What a path is made of. Two paths of the same parts name the same place.
pub struct PartsView {
    pub rooted: bool,
    pub names: Seq<Seq<char>>,
}

pub struct Parts {
    pub rooted: bool,
    pub names: Vec<String>,
}

impl View for Parts {
    type V = PartsView;

    open spec fn view(&self) -> PartsView {
        PartsView { rooted: self.rooted, names: texts(self.names@) }
    }
}

/// The parts of a path. A `.` counts only where the path begins with it.
pub open spec fn parts(path: Seq<char>) -> PartsView {
    PartsView {
        rooted: is_absolute(path),
        names: if begins_here(path) {
            seq![seq!['.']] + names(path)
        } else {
            names(path)
        },
    }
}

/// The current directory.
#[derive(Debug)]
pub enum CurrentDir {
    /// There is none.
    Unknown,
    Text(String),
    /// Its path is no Unicode text; these are the bytes of it.
    Bytes(Vec<u8>),
}

pub enum CurrentDirView {
    Unknown,
    Text(Seq<char>),
    Bytes(Seq<u8>),
}

impl View for CurrentDir {
    type V = CurrentDirView;

    open spec fn view(&self) -> CurrentDirView {
        match self {
            CurrentDir::Unknown => CurrentDirView::Unknown,
            CurrentDir::Text(path) => CurrentDirView::Text(path@),
            CurrentDir::Bytes(path) => CurrentDirView::Bytes(path@),
        }
    }
}

/// How many bytes stand before the first slash.
pub open spec fn find_slash(path: Seq<u8>) -> nat
    decreases path.len(),
{
    if path.len() == 0 || path.first() == 0x2f {
        0
    } else {
        1 + find_slash(path.drop_first())
    }
}

/// A name given by its bytes. One that is no Unicode text is kept apart from all
/// texts by a slash in front, which no name holds.
pub open spec fn name_of_bytes(name: Seq<u8>) -> Seq<char> {
    if valid_utf8(name) {
        decode_utf8(name)
    } else {
        seq!['/'] + name.map_values(|b: u8| b as char)
    }
}

/// The names in a path that is given by its bytes.
pub open spec fn names_of_bytes(path: Seq<u8>) -> Seq<Seq<char>>
    decreases path.len(),
{
    let k = find_slash(path) as int;
    let name = path.take(k);
    let first = if name.len() == 0 || name == seq![0x2eu8] {
        Seq::empty()
    } else {
        seq![name_of_bytes(name)]
    };
    if k < path.len() {
        first + names_of_bytes(path.skip(k + 1))
    } else {
        first
    }
}

/// The parts of a path that is given by its bytes.
pub open spec fn parts_of_bytes(path: Seq<u8>) -> PartsView {
    PartsView {
        rooted: path.len() > 0 && path[0] == 0x2f,
        names: if path.take(find_slash(path) as int) == seq![0x2eu8] {
            seq![seq!['.']] + names_of_bytes(path)
        } else {
            names_of_bytes(path)
        },
    }
}

/// The parts of `path` as seen from the place with the parts `base`. The empty path
/// stands for itself.
pub open spec fn parts_from(base: PartsView, path: Seq<char>) -> PartsView {
    if path.len() == 0 || is_absolute(path) {
        parts(path)
    } else {
        PartsView { rooted: base.rooted, names: base.names + names(path) }
    }
}

/// The parts of the absolute path that `path` stands for when `cwd` is the
/// current directory. Without a current directory a path stands for itself.
pub open spec fn absolute_parts(path: Seq<char>, cwd: CurrentDirView) -> PartsView {
    match cwd {
        CurrentDirView::Unknown => parts(path),
        CurrentDirView::Text(cwd) => parts_from(parts(cwd), path),
        CurrentDirView::Bytes(cwd) => parts_from(parts_of_bytes(cwd), path),
    }
}

/// `path` lies under `base` or is `base`.
pub open spec fn is_under(path: PartsView, base: PartsView) -> bool {
    if base.rooted {
        path.rooted && base.names.is_prefix_of(path.names)
    } else {
        base.names.len() == 0 || (!path.rooted && base.names.is_prefix_of(path.names))
    }
}

/// `path` as seen from `base`.
pub open spec fn joined_path(base: Seq<char>, path: Seq<char>) -> Seq<char> {
    if is_absolute(path) {
        path
    } else if base.len() == 0 || base.last() == '/' {
        base + path
    } else {
        base.push('/') + path
    }
}

/// Adds the names in `path` to `found`.
fn push_names(found: &mut Vec<String>, path: &[char])
    ensures
        texts(final(found)@) == texts(old(found)@) + names(path@),
{
    let ghost before = texts(found@);
    let total: usize = path.len();
    let mut from: usize = 0;
    assert(path@.skip(0) =~= path@);
    loop
        invariant_except_break
            from <= path@.len(),
            total == path@.len(),
            before + names(path@) =~= texts(found@) + names(path@.skip(from as int)),
        ensures
            texts(found@) == before + names(path@),
        decreases path@.len() - from,
    {
        let rest = slice_subrange(path, from, total);
        assert(rest@ =~= path@.skip(from as int));
        let k: usize = find_char_in(rest, '/');
        let name = slice_subrange(rest, 0, k);
        assert(name@ =~= rest@.take(k as int));
        let here: [char; 1] = ['.'];
        assert(here@ =~= seq!['.']);
        let ghost some = found@;
        if k > 0 && !same_chars(name, &here) {
            found.push(string_of(name));
            assert(texts(found@) =~= texts(some).push(name@));
        }
        if k == rest.len() {
            assert(texts(found@) =~= before + names(path@));
            break ;
        }
        assert(rest@.skip(k + 1) =~= path@.skip(from + k + 1));
        from = from + k + 1;
    }
}

/// Whether a path says where it is from the root.
pub fn is_absolute_path(path: &str) -> (absolute: bool)
    ensures
        absolute == is_absolute(path@),
{
    let chars = chars_of(path);
    chars.len() > 0 && chars[0] == '/'
}

/// The parts of a path.
pub fn parts_of(path: &str) -> (found: Parts)
    ensures
        found@ == parts(path@),
{
    let chars = chars_of(path);
    let mut found: Vec<String> = Vec::new();
    let k: usize = find_char_in(chars.as_slice(), '/');
    let name = slice_subrange(chars.as_slice(), 0, k);
    assert(name@ =~= path@.take(k as int));
    let here: [char; 1] = ['.'];
    assert(here@ =~= seq!['.']);
    assert(texts(found@) =~= Seq::empty());
    if same_chars(name, &here) {
        found.push(string_of(&here));
        assert(texts(found@) =~= seq![seq!['.']]);
    }
    push_names(&mut found, chars.as_slice());
    let made = Parts { rooted: is_absolute_path(path), names: found };
    assert(made@.names =~= parts(path@).names);
    made
}

fn find_slash_in(path: &[u8]) -> (k: usize)
    ensures
        k == find_slash(path@),
        k <= path@.len(),
{
    let mut i: usize = 0;
    assert(path@.skip(0) =~= path@);
    while i < path.len() && path[i] != 0x2f
        invariant
            i <= path@.len(),
            find_slash(path@) == i + find_slash(path@.skip(i as int)),
        decreases path@.len() - i,
    {
        assert(path@.skip(i as int).drop_first() =~= path@.skip(i + 1));
        i += 1;
    }
    i
}

/// A name given by its bytes.
fn read_name(name: &[u8]) -> (text: String)
    ensures
        text@ == name_of_bytes(name@),
{
    let bytes = slice_to_vec(name);
    match read_utf8(bytes) {
        Ok(text) => text,
        Err(_) => {
            let mut chars: Vec<char> = vec!['/'];
            let ghost spelled = |b: u8| b as char;
            assert(chars@ =~= seq!['/'] + name@.take(0).map_values(spelled));
            let mut i: usize = 0;
            while i < name.len()
                invariant
                    spelled == |b: u8| b as char,
                    i <= name@.len(),
                    chars@ == seq!['/'] + name@.take(i as int).map_values(spelled),
                decreases name@.len() - i,
            {
                chars.push(name[i] as char);
                assert(chars@ =~= seq!['/'] + name@.take(i + 1).map_values(spelled));
                i += 1;
            }
            assert(name@.take(i as int) =~= name@);
            string_of(chars.as_slice())
        },
    }
}

/// The name is `.`.
fn is_dot(name: &[u8]) -> (dot: bool)
    ensures
        dot == (name@ == seq![0x2eu8]),
{
    if name.len() == 1 && name[0] == 0x2e {
        assert(name@ =~= seq![0x2eu8]);
        true
    } else {
        false
    }
}

/// The parts of a path that is given by its bytes.
pub fn read_parts(path: &[u8]) -> (found: Parts)
    ensures
        found@ == parts_of_bytes(path@),
{
    let total: usize = path.len();
    let mut found: Vec<String> = Vec::new();
    assert(texts(found@) =~= Seq::empty());
    let first: usize = find_slash_in(path);
    let name = slice_subrange(path, 0, first);
    assert(name@ =~= path@.take(first as int));
    if is_dot(name) {
        found.push(".".to_string());
        proof {
            reveal_strlit(".");
            assert("."@ =~= seq!['.']);
        }
        assert(texts(found@) =~= seq![seq!['.']]);
    }
    let ghost before = texts(found@);
    let mut from: usize = 0;
    assert(path@.skip(0) =~= path@);
    loop
        invariant_except_break
            from <= path@.len(),
            total == path@.len(),
            before + names_of_bytes(path@) =~= texts(found@) + names_of_bytes(
                path@.skip(from as int),
            ),
        ensures
            texts(found@) == before + names_of_bytes(path@),
        decreases path@.len() - from,
    {
        let rest = slice_subrange(path, from, total);
        assert(rest@ =~= path@.skip(from as int));
        let k: usize = find_slash_in(rest);
        let name = slice_subrange(rest, 0, k);
        assert(name@ =~= rest@.take(k as int));
        let ghost some = found@;
        if k > 0 && !is_dot(name) {
            let text = read_name(name);
            let ghost added = text@;
            found.push(text);
            assert(texts(found@) =~= texts(some).push(added));
        }
        if k == rest.len() {
            assert(texts(found@) =~= before + names_of_bytes(path@));
            break ;
        }
        assert(rest@.skip(k + 1) =~= path@.skip(from + k + 1));
        from = from + k + 1;
    }
    let made = Parts { rooted: path.len() > 0 && path[0] == 0x2f, names: found };
    assert(made@.names =~= parts_of_bytes(path@).names);
    made
}

/// The parts of `path` as seen from the place with the parts `base`.
fn see_from(base: Parts, path: &str) -> (found: Parts)
    ensures
        found@ == parts_from(base@, path@),
{
    let chars = chars_of(path);
    if chars.len() == 0 || is_absolute_path(path) {
        parts_of(path)
    } else {
        let mut found = base;
        push_names(&mut found.names, chars.as_slice());
        found
    }
}

/// The parts of the absolute path that `path` stands for.
pub fn absolute_parts_of(path: &str, cwd: &CurrentDir) -> (found: Parts)
    ensures
        found@ == absolute_parts(path@, cwd@),
{
    match cwd {
        CurrentDir::Unknown => parts_of(path),
        CurrentDir::Text(cwd) => see_from(parts_of(cwd.as_str()), path),
        CurrentDir::Bytes(cwd) => see_from(read_parts(cwd.as_slice()), path),
    }
}

/// Whether `path` lies under `base` or is `base`.
pub fn lies_under(path: &Parts, base: &Parts) -> (under: bool)
    ensures
        under == is_under(path@, base@),
{
    if base.rooted {
        if !path.rooted {
            return false;
        }
    } else {
        if base.names.len() == 0 {
            return true;
        }
        if path.rooted {
            return false;
        }
    }
    if base.names.len() > path.names.len() {
        return false;
    }
    let mut i: usize = 0;
    while i < base.names.len()
        invariant
            i <= base.names@.len() <= path.names@.len(),
            forall|j: int| 0 <= j < i ==> base@.names[j] == path@.names[j],
        decreases base.names@.len() - i,
    {
        assert(base@.names[i as int] == base.names@[i as int]@);
        assert(path@.names[i as int] == path.names@[i as int]@);
        if !same(base.names[i].as_str(), path.names[i].as_str()) {
            return false;
        }
        i += 1;
    }
    assert(base@.names =~= path@.names.take(i as int));
    true
}

/// `path` as seen from `base`.
pub fn join_path(base: &str, path: &str) -> (joined: String)
    ensures
        joined@ == joined_path(base@, path@),
{
    if is_absolute_path(path) {
        return path.to_string();
    }
    let chars = chars_of(base);
    let mut joined = base.to_string();
    if chars.len() > 0 && chars[chars.len() - 1] != '/' {
        joined.append("/");
        proof {
            reveal_strlit("/");
            assert("/"@ =~= seq!['/']);
            assert(base@ + "/"@ =~= base@.push('/'));
        }
    }
    joined.append(path);
    joined
}

/// Calls `std::path::absolute` on `.`, which gives the current directory. What
/// that is, and whether there is one, is up to the environment, so nothing is
/// claimed of it.
#[verifier::external_body]
pub(crate) fn current_dir() -> (cwd: CurrentDir)
{
    match std::path::absolute(".") {
        Ok(path) => match path.into_os_string().into_string() {
            Ok(text) => CurrentDir::Text(text),
            Err(name) => CurrentDir::Bytes(name.into_encoded_bytes()),
        },
        Err(_) => CurrentDir::Unknown,
    }
}

/// No name begins with a slash.
proof fn lemma_names_begin_without_slash(path: Seq<char>)
    ensures
        forall|i: int|
            0 <= i < names(path).len() ==> (#[trigger] names(path)[i]).len() > 0 && names(path)[i][0]
                != '/',
    decreases path.len(),
{
    let k = find_char(path, '/') as int;
    lemma_find_char(path, '/');
    if k > 0 {
        assert(path.take(k)[0] == path[0]);
    }
    if k < path.len() {
        lemma_names_begin_without_slash(path.skip(k + 1));
        let rest = names(path.skip(k + 1));
        let first = names(path).len() - rest.len();
        assert forall|i: int| 0 <= i < names(path).len() implies (#[trigger] names(path)[i]).len()
            > 0 && names(path)[i][0] != '/' by {
            if i >= first {
                assert(names(path)[i] == rest[i - first]);
            }
        }
    }
}

/// A name that is no Unicode text is none that a path can spell.
pub proof fn law_no_path_spells_a_name_that_is_no_text(path: Seq<char>, name: Seq<u8>)
    requires
        !valid_utf8(name),
    ensures
        !names(path).contains(name_of_bytes(name)),
{
    lemma_names_begin_without_slash(path);
    assert(name_of_bytes(name)[0] == '/');
}

/// Everything lies under itself.
pub proof fn law_path_is_under_itself(path: PartsView)
    ensures
        is_under(path, path),
{
    assert(path.names.is_prefix_of(path.names));
}

/// What lies under a place lies under everything that this place lies under.
pub proof fn law_under_is_transitive(path: PartsView, middle: PartsView, base: PartsView)
    requires
        is_under(path, middle),
        is_under(middle, base),
    ensures
        is_under(path, base),
{
    if base.rooted || base.names.len() > 0 {
        assert(base.names =~= path.names.take(base.names.len() as int));
    }
}

/// The names in a path are those before a slash and then those behind it. A part between
/// slashes is a name, unless it is empty or `.`.
pub proof fn law_slashes_part_names(before: Seq<char>, behind: Seq<char>, part: Seq<char>)
    requires
        !part.contains('/'),
    ensures
        names(before + seq!['/'] + behind) == names(before) + names(behind),
        names(part) == if part.len() == 0 || part == seq!['.'] {
            Seq::<Seq<char>>::empty()
        } else {
            seq![part]
        },
{
    lemma_names_concat(before, behind);
    lemma_find_char(part, '/');
    let k = find_char(part, '/') as int;
    if k < part.len() {
        assert(part.contains(part[k]));
    }
    assert(part.take(k) =~= part);
}

proof fn lemma_names_concat(before: Seq<char>, behind: Seq<char>)
    ensures
        names(before + seq!['/'] + behind) == names(before) + names(behind),
    decreases before.len(),
{
    let all = before + seq!['/'] + behind;
    let k = find_char(before, '/') as int;
    law_character_is_found_first(before, '/');
    law_character_is_found_first(all, '/');
    let j = find_char(all, '/') as int;
    assert(j == k) by {
        if j < k {
            assert(before[j] == all[j]);
        }
        if k < j {
            assert(all[k] == '/');
        }
    }
    assert(all.take(k) =~= before.take(k));
    let name = before.take(k);
    let first = if name.len() == 0 || name == seq!['.'] {
        Seq::empty()
    } else {
        seq![name]
    };
    if k < before.len() {
        let rest = before.skip(k + 1);
        lemma_names_concat(rest, behind);
        assert(all.skip(k + 1) =~= rest + seq!['/'] + behind);
        assert(first + (names(rest) + names(behind)) =~= first + names(rest) + names(behind));
    } else {
        assert(all.skip(k + 1) =~= behind);
    }
}

/// A path is rooted where it begins with a slash. Its names are those in it, with a `.`
/// before them where the path is `.` or begins with `./`.
pub proof fn law_path_is_made_of_its_names(path: Seq<char>)
    ensures
        parts(path).rooted <==> path.len() > 0 && path[0] == '/',
        is_absolute(path) <==> path.len() > 0 && path[0] == '/',
        path == seq!['.'] || (path.len() > 1 && path[0] == '.' && path[1] == '/')
            ==> parts(path).names == seq![seq!['.']] + names(path),
        !(path == seq!['.'] || (path.len() > 1 && path[0] == '.' && path[1] == '/'))
            ==> parts(path).names == names(path),
{
    law_character_is_found_first(path, '/');
    let k = find_char(path, '/') as int;
    let head = path.take(k);
    if path == seq!['.'] {
        assert(k == 1) by {
            if k < 1 {
                assert(path[0] == '.');
            }
        }
        assert(head =~= seq!['.']);
    } else if path.len() > 1 && path[0] == '.' && path[1] == '/' {
        assert(k == 1) by {
            if k > 1 {
                assert(path[1] != '/');
            }
        }
        assert(head =~= seq!['.']);
    } else if head == seq!['.'] {
        assert(k == 1);
        assert(head[0] == path[0]);
        if path.len() == 1 {
            assert(path =~= seq!['.']);
        }
    }
}

/// A relative path is seen from the current directory: it stands for the path that has
/// the directory, a slash and then the relative path.
pub proof fn law_relative_path_is_seen_from_the_directory(path: Seq<char>, cwd: Seq<char>)
    requires
        cwd.len() > 0,
        cwd[0] == '/',
        path.len() > 0,
        path[0] != '/',
    ensures
        absolute_parts(path, CurrentDirView::Text(cwd)) == parts(cwd + seq!['/'] + path),
{
    let all = cwd + seq!['/'] + path;
    lemma_names_concat(cwd, path);
    law_path_is_made_of_its_names(cwd);
    law_path_is_made_of_its_names(all);
    law_path_is_made_of_its_names(path);
    assert(all[0] == '/');
    assert(seq!['.'][0] == '.');
}

/// A path that says where it is from the root stands for itself in every directory, and
/// so does the empty path; every path does where no directory is known.
pub proof fn law_absolute_path_stands_for_itself(path: Seq<char>, cwd: CurrentDirView)
    ensures
        path.len() == 0 || path[0] == '/' ==> absolute_parts(path, cwd) == parts(path),
        absolute_parts(path, CurrentDirView::Unknown) == parts(path),
{
}

/// A relative path in a directory that is no text keeps the names of the directory and
/// has its own behind them.
pub proof fn law_relative_path_keeps_the_directory(path: Seq<char>, cwd: Seq<u8>)
    requires
        path.len() > 0,
        path[0] != '/',
    ensures
        absolute_parts(path, CurrentDirView::Bytes(cwd)).names == parts_of_bytes(cwd).names + names(
            path,
        ),
        absolute_parts(path, CurrentDirView::Bytes(cwd)).rooted == parts_of_bytes(cwd).rooted,
        parts_of_bytes(cwd).rooted <==> cwd.len() > 0 && cwd[0] == 0x2f,
        cwd.len() > 0 && cwd[0] == 0x2f ==> parts_of_bytes(cwd).names == names_of_bytes(cwd),
{
    lemma_find_slash(cwd);
    if cwd.len() > 0 && cwd[0] == 0x2f {
        let head = cwd.take(find_slash(cwd) as int);
        assert(head.len() == 0);
        assert(seq![0x2eu8].len() == 1);
    }
}

/// The names in a path that is given by its bytes are those before a slash and then those
/// behind it; a part between slashes is a name, unless it is empty or `.`.
pub proof fn law_slashes_part_names_of_bytes(before: Seq<u8>, behind: Seq<u8>, part: Seq<u8>)
    requires
        !part.contains(0x2f),
    ensures
        names_of_bytes(before + seq![0x2fu8] + behind) == names_of_bytes(before) + names_of_bytes(
            behind,
        ),
        names_of_bytes(part) == if part.len() == 0 || part == seq![0x2eu8] {
            Seq::<Seq<char>>::empty()
        } else {
            seq![name_of_bytes(part)]
        },
        valid_utf8(part) ==> name_of_bytes(part) == decode_utf8(part),
{
    lemma_names_of_bytes_concat(before, behind);
    lemma_find_slash(part);
    let k = find_slash(part) as int;
    if k < part.len() {
        assert(part.contains(part[k]));
    }
    assert(part.take(k) =~= part);
}

proof fn lemma_find_slash(path: Seq<u8>)
    ensures
        ({
            let k = find_slash(path) as int;
            &&& k <= path.len()
            &&& k < path.len() ==> path[k] == 0x2f
            &&& forall|i: int| 0 <= i < k ==> #[trigger] path[i] != 0x2f
        }),
    decreases path.len(),
{
    if path.len() > 0 && path.first() != 0x2f {
        lemma_find_slash(path.drop_first());
        let k = find_slash(path) as int;
        assert forall|i: int| 0 <= i < k implies #[trigger] path[i] != 0x2f by {
            if i > 0 {
                assert(path.drop_first()[i - 1] != 0x2f);
            }
        }
    }
}

proof fn lemma_names_of_bytes_concat(before: Seq<u8>, behind: Seq<u8>)
    ensures
        names_of_bytes(before + seq![0x2fu8] + behind) == names_of_bytes(before) + names_of_bytes(
            behind,
        ),
    decreases before.len(),
{
    let all = before + seq![0x2fu8] + behind;
    let k = find_slash(before) as int;
    lemma_find_slash(before);
    lemma_find_slash(all);
    let j = find_slash(all) as int;
    assert(j == k) by {
        if j < k {
            assert(before[j] == all[j]);
        }
        if k < j {
            assert(all[k] == 0x2f);
        }
    }
    assert(all.take(k) =~= before.take(k));
    let name = before.take(k);
    let first = if name.len() == 0 || name == seq![0x2eu8] {
        Seq::empty()
    } else {
        seq![name_of_bytes(name)]
    };
    if k < before.len() {
        let rest = before.skip(k + 1);
        lemma_names_of_bytes_concat(rest, behind);
        assert(all.skip(k + 1) =~= rest + seq![0x2fu8] + behind);
        assert(first + (names_of_bytes(rest) + names_of_bytes(behind)) =~= first + names_of_bytes(
            rest,
        ) + names_of_bytes(behind));
    } else {
        assert(all.skip(k + 1) =~= behind);
    }
}

/// A path lies under another exactly where the names of the other are its first names,
/// one by one, and both are rooted or neither is; all paths lie under the empty one.
pub proof fn law_path_lies_under_its_first_names(path: PartsView, base: PartsView)
    ensures
        is_under(path, base) <==> {
            ||| !base.rooted && base.names.len() == 0
            ||| {
                &&& path.rooted == base.rooted
                &&& base.names.len() <= path.names.len()
                &&& forall|i: int|
                    0 <= i < base.names.len() ==> #[trigger] base.names[i] == path.names[i]
            }
        },
{
    if base.names.len() <= path.names.len() {
        let head = path.names.take(base.names.len() as int);
        if base.names.is_prefix_of(path.names) {
            assert forall|i: int| 0 <= i < base.names.len() implies #[trigger] base.names[i]
                == path.names[i] by {
                assert(head[i] == path.names[i]);
            }
        }
        if forall|i: int| 0 <= i < base.names.len() ==> #[trigger] base.names[i]
            == path.names[i] {
            assert(base.names =~= head);
        }
    }
}

/// What is in a directory lies under it, however deep.
pub proof fn law_files_lie_under_their_directory(base: Seq<char>, more: Seq<char>)
    requires
        base.len() > 0,
        base[0] == '/',
    ensures
        is_under(parts(base + seq!['/'] + more), parts(base)),
{
    let all = base + seq!['/'] + more;
    lemma_names_concat(base, more);
    law_path_is_made_of_its_names(base);
    law_path_is_made_of_its_names(all);
    assert(all[0] == '/');
    assert(seq!['.'][0] == '.');
    assert(names(all).take(names(base).len() as int) =~= names(base));
}

/// A path joined to a directory: an absolute one is itself; any other comes behind the
/// directory, with one slash between them where the directory does not end in one.
pub proof fn law_joined_path_comes_behind(base: Seq<char>, path: Seq<char>)
    ensures
        path.len() > 0 && path[0] == '/' ==> joined_path(base, path) == path,
        !(path.len() > 0 && path[0] == '/') ==> {
            &&& base.len() == 0 ==> joined_path(base, path) == path
            &&& base.len() > 0 && base.last() == '/' ==> joined_path(base, path) == base + path
            &&& base.len() > 0 && base.last() != '/' ==> joined_path(base, path) == base + seq!['/']
                + path
        },
{
    assert(base.push('/') + path =~= base + seq!['/'] + path);
    assert(base.len() == 0 ==> base + path =~= path);
}

}
