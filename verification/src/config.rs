//! The configuration: what tools may do, and which plugins there are.
use vstd::prelude::*;
use vstd::slice::slice_subrange;

use crate::path::{
    absolute_parts, absolute_parts_of, current_dir, is_absolute, is_absolute_path, is_under,
    join_path, joined_path, law_under_is_transitive, lies_under, CurrentDir, CurrentDirView,
};
use crate::text::{
    chars_of, contains, contains_text, copy_maybe, copy_texts, find_char, find_char_in, first_word,
    first_word_chars, has_text, is_space, is_spaces, law_character_is_found_first,
    law_contained_text_has_surroundings, law_first_word_stands_between_white_space,
    lemma_first_char, maybe_text, same, show_bytes, shown_text, string_of, texts,
};

verus! {

/// What tools may read, write and run.
#[derive(Debug)]
pub struct Permissions {
    pub fs_read: Vec<String>,
    pub fs_write: Vec<String>,
    pub allowed_commands: Vec<String>,
    pub denied_commands: Vec<String>,
}

#[verifier::ext_equal]
pub struct PermissionsView {
    pub fs_read: Seq<Seq<char>>,
    pub fs_write: Seq<Seq<char>>,
    pub allowed_commands: Seq<Seq<char>>,
    pub denied_commands: Seq<Seq<char>>,
}

impl View for Permissions {
    type V = PermissionsView;

    open spec fn view(&self) -> PermissionsView {
        PermissionsView {
            fs_read: texts(self.fs_read@),
            fs_write: texts(self.fs_write@),
            allowed_commands: texts(self.allowed_commands@),
            denied_commands: texts(self.denied_commands@),
        }
    }
}

/// Every command.
pub open spec fn any_command() -> Seq<char> {
    "*"@
}

/// The whole file system.
pub open spec fn root() -> Seq<char> {
    "/"@
}

pub open spec fn default_permissions() -> PermissionsView {
    PermissionsView {
        fs_read: seq![root()],
        fs_write: seq![root()],
        allowed_commands: seq![any_command()],
        denied_commands: Seq::empty(),
    }
}

/// A list of the configuration, or what stands for it where it is not given.
pub open spec fn given_or(given: Option<Vec<String>>, default: Seq<Seq<char>>) -> Seq<Seq<char>> {
    match given {
        Some(list) => texts(list@),
        None => default,
    }
}

/// `path` is in one of the places of `allowed`.
pub open spec fn path_allowed(
    allowed: Seq<Seq<char>>,
    path: Seq<char>,
    cwd: CurrentDirView,
) -> bool {
    allowed.contains(root()) || exists|i: int|
        0 <= i < allowed.len() && is_under(
            absolute_parts(path, cwd),
            absolute_parts(#[trigger] allowed[i], cwd),
        )
}

/// A command may run: nothing that is denied occurs in it, and what it begins
/// with is allowed.
pub open spec fn command_allowed(permissions: PermissionsView, command: Seq<char>) -> bool {
    &&& forall|i: int|
        0 <= i < permissions.denied_commands.len() ==> !contains_text(
            command,
            #[trigger] permissions.denied_commands[i],
        )
    &&& permissions.allowed_commands.contains(any_command())
        || permissions.allowed_commands.contains(first_word(command))
}

/// A local place lies in one of the global ones.
pub open spec fn within(global: Seq<Seq<char>>, place: Seq<char>, cwd: CurrentDirView) -> bool {
    exists|i: int|
        0 <= i < global.len() && is_under(
            absolute_parts(place, cwd),
            absolute_parts(#[trigger] global[i], cwd),
        )
}

/// The local places that lie in global ones.
pub open spec fn common_places(
    global: Seq<Seq<char>>,
    local: Seq<Seq<char>>,
    cwd: CurrentDirView,
) -> Seq<Seq<char>> {
    if global.contains(root()) {
        local
    } else if local.contains(root()) {
        global
    } else {
        local.filter(|place: Seq<char>| within(global, place, cwd))
    }
}

/// All of `first`, and then what of `second` is not there yet.
pub open spec fn both(first: Seq<Seq<char>>, second: Seq<Seq<char>>) -> Seq<Seq<char>>
    decreases second.len(),
{
    if second.len() == 0 {
        first
    } else {
        let some = both(first, second.drop_last());
        if some.contains(second.last()) {
            some
        } else {
            some.push(second.last())
        }
    }
}

/// Global permissions narrowed by those of a directory.
pub open spec fn intersected(
    global: PermissionsView,
    local: PermissionsView,
    cwd: CurrentDirView,
) -> PermissionsView {
    PermissionsView {
        fs_read: common_places(global.fs_read, local.fs_read, cwd),
        fs_write: common_places(global.fs_write, local.fs_write, cwd),
        allowed_commands: if local.allowed_commands == seq![any_command()] {
            global.allowed_commands
        } else {
            local.allowed_commands
        },
        denied_commands: both(global.denied_commands, local.denied_commands),
    }
}

/// A list of one text.
fn only(text: &str) -> (list: Vec<String>)
    ensures
        texts(list@) == seq![text@],
{
    let mut list: Vec<String> = Vec::new();
    list.push(text.to_string());
    assert(texts(list@) =~= seq![text@]);
    list
}

fn default_fs_all() -> (list: Vec<String>)
    ensures
        texts(list@) == seq![root()],
{
    only("/")
}

fn default_commands_allow() -> (list: Vec<String>)
    ensures
        texts(list@) == seq![any_command()],
{
    only("*")
}

impl Default for Permissions {
    fn default() -> (permissions: Self)
        ensures
            permissions@ == default_permissions(),
    {
        Permissions::given(None, None, None, None)
    }
}

impl Clone for Permissions {
    fn clone(&self) -> (copy: Self)
        ensures
            copy@ == self@,
    {
        Permissions {
            fs_read: copy_texts(&self.fs_read),
            fs_write: copy_texts(&self.fs_write),
            allowed_commands: copy_texts(&self.allowed_commands),
            denied_commands: copy_texts(&self.denied_commands),
        }
    }
}

impl Permissions {
    /// The permissions that a configuration gives. What it leaves out is allowed.
    pub fn given(
        fs_read: Option<Vec<String>>,
        fs_write: Option<Vec<String>>,
        allowed_commands: Option<Vec<String>>,
        denied_commands: Option<Vec<String>>,
    ) -> (permissions: Permissions)
        ensures
            permissions@ == (PermissionsView {
                fs_read: given_or(fs_read, seq![root()]),
                fs_write: given_or(fs_write, seq![root()]),
                allowed_commands: given_or(allowed_commands, seq![any_command()]),
                denied_commands: given_or(denied_commands, Seq::empty()),
            }),
    {
        let none: Vec<String> = Vec::new();
        assert(texts(none@) =~= Seq::empty());
        Permissions {
            fs_read: match fs_read {
                Some(list) => list,
                None => default_fs_all(),
            },
            fs_write: match fs_write {
                Some(list) => list,
                None => default_fs_all(),
            },
            allowed_commands: match allowed_commands {
                Some(list) => list,
                None => default_commands_allow(),
            },
            denied_commands: match denied_commands {
                Some(list) => list,
                None => none,
            },
        }
    }

    /// Narrows the permissions by those of a directory. Relative places are seen
    /// from the current directory.
    pub fn intersect(&self, local: &Permissions) -> (merged: Permissions)
        ensures
            exists|cwd: CurrentDirView|
                merged@ == #[trigger] intersected(self@, local@, cwd),
    {
        let cwd = current_dir();
        self.intersect_from(local, &cwd)
    }

    /// Narrows the permissions by those of a directory. Relative places are seen
    /// from `cwd`.
    pub fn intersect_from(&self, local: &Permissions, cwd: &CurrentDir) -> (merged: Permissions)
        ensures
            merged@ == intersected(self@, local@, cwd@),
    {
        let any = local.allowed_commands.len() == 1 && same(
            local.allowed_commands[0].as_str(),
            "*",
        );
        assert(any == (local@.allowed_commands == seq![any_command()])) by {
            if any {
                assert(local@.allowed_commands =~= seq![any_command()]);
            } else if local.allowed_commands@.len() == 1 {
                assert(local@.allowed_commands[0] == local.allowed_commands@[0]@);
                assert(seq![any_command()][0] == any_command());
            } else {
                assert(local@.allowed_commands.len() == local.allowed_commands@.len());
            }
        }
        Permissions {
            fs_read: intersect_paths(&self.fs_read, &local.fs_read, cwd),
            fs_write: intersect_paths(&self.fs_write, &local.fs_write, cwd),
            allowed_commands: if any {
                copy_texts(&self.allowed_commands)
            } else {
                copy_texts(&local.allowed_commands)
            },
            denied_commands: union_of(&self.denied_commands, &local.denied_commands),
        }
    }

    /// Whether a file may be read. A relative path is seen from the current
    /// directory.
    pub fn is_path_readable(&self, path: &str) -> (allowed: bool)
        ensures
            exists|cwd: CurrentDirView|
                allowed == #[trigger] path_allowed(self@.fs_read, path@, cwd),
    {
        let cwd = current_dir();
        self.is_path_readable_from(path, &cwd)
    }

    /// Whether a file may be read. A relative path is seen from `cwd`.
    pub fn is_path_readable_from(&self, path: &str, cwd: &CurrentDir) -> (allowed: bool)
        ensures
            allowed == path_allowed(self@.fs_read, path@, cwd@),
    {
        check_path_allowed(&self.fs_read, path, cwd)
    }

    /// Whether a file may be written. A relative path is seen from the current
    /// directory.
    pub fn is_path_writable(&self, path: &str) -> (allowed: bool)
        ensures
            exists|cwd: CurrentDirView|
                allowed == #[trigger] path_allowed(self@.fs_write, path@, cwd),
    {
        let cwd = current_dir();
        self.is_path_writable_from(path, &cwd)
    }

    /// Whether a file may be written. A relative path is seen from `cwd`.
    pub fn is_path_writable_from(&self, path: &str, cwd: &CurrentDir) -> (allowed: bool)
        ensures
            allowed == path_allowed(self@.fs_write, path@, cwd@),
    {
        check_path_allowed(&self.fs_write, path, cwd)
    }

    /// Whether a command may run.
    pub fn is_command_allowed(&self, command: &str) -> (allowed: bool)
        ensures
            allowed == command_allowed(self@, command@),
    {
        let mut i: usize = 0;
        while i < self.denied_commands.len()
            invariant
                i <= self.denied_commands@.len(),
                forall|j: int|
                    0 <= j < i ==> !contains_text(command@, #[trigger] self@.denied_commands[j]),
            decreases self.denied_commands@.len() - i,
        {
            assert(self@.denied_commands[i as int] == self.denied_commands@[i as int]@);
            if contains(command, self.denied_commands[i].as_str()) {
                return false;
            }
            i += 1;
        }
        if has_text(&self.allowed_commands, "*") {
            return true;
        }
        let chars = chars_of(command);
        let name = string_of(first_word_chars(chars.as_slice()));
        has_text(&self.allowed_commands, name.as_str())
    }
}

/// Whether `path` is in one of the places of `allowed`.
fn check_path_allowed(allowed: &Vec<String>, path: &str, cwd: &CurrentDir) -> (found: bool)
    ensures
        found == path_allowed(texts(allowed@), path@, cwd@),
{
    if has_text(allowed, "/") {
        return true;
    }
    is_within(allowed, path, cwd)
}

/// Whether a place lies in one of others.
fn is_within(places: &Vec<String>, place: &str, cwd: &CurrentDir) -> (found: bool)
    ensures
        found == within(texts(places@), place@, cwd@),
{
    let target = absolute_parts_of(place, cwd);
    let ghost dir = cwd@;
    let mut i: usize = 0;
    while i < places.len()
        invariant
            dir == cwd@,
            target@ == absolute_parts(place@, dir),
            i <= places@.len(),
            forall|j: int|
                0 <= j < i ==> !is_under(
                    target@,
                    absolute_parts(#[trigger] texts(places@)[j], dir),
                ),
        decreases places@.len() - i,
    {
        let base = absolute_parts_of(places[i].as_str(), cwd);
        assert(texts(places@)[i as int] == places@[i as int]@);
        if lies_under(&target, &base) {
            return true;
        }
        i += 1;
    }
    false
}

/// The local places that lie in global ones.
fn intersect_paths(global: &Vec<String>, local: &Vec<String>, cwd: &CurrentDir) -> (common: Vec<
    String,
>)
    ensures
        texts(common@) == common_places(texts(global@), texts(local@), cwd@),
{
    if has_text(global, "/") {
        return copy_texts(local);
    }
    if has_text(local, "/") {
        return copy_texts(global);
    }
    let ghost places = texts(global@);
    let ghost all = texts(local@);
    let ghost dir = cwd@;
    let ghost keep = |place: Seq<char>| within(places, place, dir);
    let mut common: Vec<String> = Vec::new();
    let mut i: usize = 0;
    proof {
        reveal(Seq::filter);
        assert(texts(common@) =~= all.take(0).filter(keep));
    }
    while i < local.len()
        invariant
            places == texts(global@),
            all == texts(local@),
            dir == cwd@,
            keep == (|place: Seq<char>| within(places, place, dir)),
            i <= local@.len(),
            texts(common@) == all.take(i as int).filter(keep),
        decreases local@.len() - i,
    {
        let ghost before = common@;
        let kept = is_within(global, local[i].as_str(), cwd);
        assert(all[i as int] == local@[i as int]@);
        if kept {
            common.push(local[i].clone());
            assert(texts(common@) =~= texts(before).push(all[i as int]));
        }
        proof {
            reveal(Seq::filter);
            assert(all.take(i + 1).drop_last() =~= all.take(i as int));
            assert(keep(all[i as int]) == kept);
        }
        i += 1;
    }
    assert(all.take(i as int) =~= all);
    common
}

/// All of `first`, and then what of `second` is not there yet.
fn union_of(first: &Vec<String>, second: &Vec<String>) -> (union: Vec<String>)
    ensures
        texts(union@) == both(texts(first@), texts(second@)),
{
    let mut union = copy_texts(first);
    let ghost all = texts(second@);
    let mut i: usize = 0;
    assert(all.take(0) =~= Seq::empty());
    while i < second.len()
        invariant
            all == texts(second@),
            i <= second@.len(),
            texts(union@) == both(texts(first@), all.take(i as int)),
        decreases second@.len() - i,
    {
        let ghost before = union@;
        assert(all[i as int] == second@[i as int]@);
        if !has_text(&union, second[i].as_str()) {
            union.push(second[i].clone());
            assert(texts(union@) =~= texts(before).push(all[i as int]));
        }
        assert(all.take(i + 1).drop_last() =~= all.take(i as int));
        i += 1;
    }
    assert(all.take(i as int) =~= all);
    union
}

/// What merged permissions allow to be read or written, both sides allow.
pub proof fn law_merged_paths_are_allowed_by_both(
    global: Seq<Seq<char>>,
    local: Seq<Seq<char>>,
    path: Seq<char>,
    cwd: CurrentDirView,
)
    requires
        path_allowed(common_places(global, local, cwd), path, cwd),
    ensures
        path_allowed(global, path, cwd),
        path_allowed(local, path, cwd),
{
    if !global.contains(root()) && !local.contains(root()) {
        let keep = |place: Seq<char>| within(global, place, cwd);
        let merged = local.filter(keep);
        if merged.contains(root()) {
            lemma_kept(local, keep, root());
        }
        let i = choose|i: int|
            0 <= i < merged.len() && is_under(
                absolute_parts(path, cwd),
                absolute_parts(#[trigger] merged[i], cwd),
            );
        assert(merged.contains(merged[i]));
        lemma_kept(local, keep, merged[i]);
        let j = choose|j: int| 0 <= j < local.len() && local[j] == merged[i];
        assert(absolute_parts(local[j], cwd) == absolute_parts(merged[i], cwd));
        let k = choose|k: int|
            0 <= k < global.len() && is_under(
                absolute_parts(merged[i], cwd),
                absolute_parts(#[trigger] global[k], cwd),
            );
        law_under_is_transitive(
            absolute_parts(path, cwd),
            absolute_parts(merged[i], cwd),
            absolute_parts(global[k], cwd),
        );
    }
}

/// What a filter keeps was there and fits.
proof fn lemma_kept(all: Seq<Seq<char>>, keep: spec_fn(Seq<char>) -> bool, kept: Seq<char>)
    requires
        all.filter(keep).contains(kept),
    ensures
        all.contains(kept),
        keep(kept),
    decreases all.len(),
{
    reveal(Seq::filter);
    if all.len() > 0 {
        let i = choose|i: int| 0 <= i < all.filter(keep).len() && all.filter(keep)[i] == kept;
        let before = all.drop_last().filter(keep);
        if i < before.len() {
            assert(before[i] == kept);
            assert(before.contains(kept));
            lemma_kept(all.drop_last(), keep, kept);
            let j = choose|j: int| 0 <= j < all.drop_last().len() && all.drop_last()[j] == kept;
            assert(all[j] == kept);
        } else {
            assert(all[all.len() - 1] == kept);
        }
    }
}

/// Where a path and all allowed places are absolute, the current directory does
/// not matter.
pub proof fn law_absolute_paths_need_no_directory(
    allowed: Seq<Seq<char>>,
    path: Seq<char>,
    cwd: CurrentDirView,
    other: CurrentDirView,
)
    requires
        is_absolute(path),
        forall|i: int| 0 <= i < allowed.len() ==> is_absolute(#[trigger] allowed[i]),
    ensures
        path_allowed(allowed, path, cwd) == path_allowed(allowed, path, other),
{
    assert forall|i: int| 0 <= i < allowed.len() implies absolute_parts(
        #[trigger] allowed[i],
        cwd,
    ) == absolute_parts(allowed[i], other) by {
        assert(is_absolute(allowed[i]));
    }
}

/// What either side denies is denied: the denied commands of both are those of
/// the merged permissions.
pub proof fn law_merged_permissions_deny_what_either_denies(
    first: Seq<Seq<char>>,
    second: Seq<Seq<char>>,
    command: Seq<char>,
)
    ensures
        both(first, second).contains(command) <==> first.contains(command) || second.contains(
            command,
        ),
    decreases second.len(),
{
    if second.len() > 0 {
        let some = both(first, second.drop_last());
        law_merged_permissions_deny_what_either_denies(first, second.drop_last(), command);
        let n = second.len() - 1;
        assert(second.contains(command) <==> second.drop_last().contains(command) || command
            == second.last()) by {
            if second.drop_last().contains(command) {
                let i = choose|i: int|
                    0 <= i < second.drop_last().len() && second.drop_last()[i] == command;
                assert(second[i] == command);
            }
            assert(second[n] == second.last());
            if second.contains(command) {
                let i = choose|i: int| 0 <= i < second.len() && second[i] == command;
                if i < n {
                    assert(second.drop_last()[i] == command);
                }
            }
        }
        if !some.contains(second.last()) {
            let more = some.push(second.last());
            assert(more.contains(command) <==> some.contains(command) || command
                == second.last()) by {
                if some.contains(command) {
                    let i = choose|i: int| 0 <= i < some.len() && some[i] == command;
                    assert(more[i] == command);
                }
                assert(more[some.len() as int] == second.last());
                if more.contains(command) {
                    let i = choose|i: int| 0 <= i < more.len() && more[i] == command;
                    if i < some.len() {
                        assert(some[i] == command);
                    }
                }
            }
        }
    }
}

/// A command that merged permissions allow is one that the local ones allow,
/// and one in which nothing occurs that either side denies.
pub proof fn law_merged_commands_are_allowed_locally(
    global: PermissionsView,
    local: PermissionsView,
    command: Seq<char>,
    cwd: CurrentDirView,
)
    requires
        command_allowed(intersected(global, local, cwd), command),
    ensures
        command_allowed(local, command),
        forall|i: int|
            0 <= i < global.denied_commands.len() ==> !contains_text(
                command,
                #[trigger] global.denied_commands[i],
            ),
{
    let merged = intersected(global, local, cwd).denied_commands;
    assert forall|i: int| 0 <= i < global.denied_commands.len() implies !contains_text(
        command,
        #[trigger] global.denied_commands[i],
    ) by {
        let denied = global.denied_commands[i];
        assert(global.denied_commands.contains(denied));
        law_merged_permissions_deny_what_either_denies(
            global.denied_commands,
            local.denied_commands,
            denied,
        );
        let k = choose|k: int| 0 <= k < merged.len() && merged[k] == denied;
        assert(!contains_text(command, merged[k]));
    }
    assert forall|i: int| 0 <= i < local.denied_commands.len() implies !contains_text(
        command,
        #[trigger] local.denied_commands[i],
    ) by {
        let denied = local.denied_commands[i];
        assert(local.denied_commands.contains(denied));
        law_merged_permissions_deny_what_either_denies(
            global.denied_commands,
            local.denied_commands,
            denied,
        );
        let k = choose|k: int| 0 <= k < merged.len() && merged[k] == denied;
        assert(!contains_text(command, merged[k]));
    }
    if local.allowed_commands == seq![any_command()] {
        assert(local.allowed_commands[0] == any_command());
    }
}

/// Where the local side lists no commands of its own, what merged permissions
/// allow is allowed globally too.
pub proof fn law_merged_commands_are_allowed_globally(
    global: PermissionsView,
    local: PermissionsView,
    command: Seq<char>,
    cwd: CurrentDirView,
)
    requires
        command_allowed(intersected(global, local, cwd), command),
        local.allowed_commands == seq![any_command()],
    ensures
        command_allowed(global, command),
{
    law_merged_commands_are_allowed_locally(global, local, command, cwd);
}

/// The default permissions allow everything.
pub proof fn law_default_permissions_allow_everything(
    path: Seq<char>,
    command: Seq<char>,
    cwd: CurrentDirView,
)
    ensures
        path_allowed(default_permissions().fs_read, path, cwd),
        path_allowed(default_permissions().fs_write, path, cwd),
        command_allowed(default_permissions(), command),
{
    assert(default_permissions().fs_read[0] == root());
    assert(default_permissions().fs_write[0] == root());
    assert(default_permissions().allowed_commands[0] == any_command());
}

/// A directory that a plugin sees.
#[derive(Debug, Clone)]
pub struct Mount {
    pub host_path: String,
    pub guest_path: String,
    pub writable: bool,
}

pub struct MountView {
    pub host_path: Seq<char>,
    pub guest_path: Seq<char>,
    pub writable: bool,
}

impl View for Mount {
    type V = MountView;

    open spec fn view(&self) -> MountView {
        MountView {
            host_path: self.host_path@,
            guest_path: self.guest_path@,
            writable: self.writable,
        }
    }
}

pub open spec fn mount_views(mounts: Seq<Mount>) -> Seq<MountView> {
    mounts.map_values(|m: Mount| m@)
}

/// The mount that `host:guest` or a path alone stands for.
pub open spec fn mount_between(paths: Seq<char>, writable: bool) -> MountView {
    let k = find_char(paths, ':') as int;
    if k < paths.len() {
        MountView { host_path: paths.take(k), guest_path: paths.skip(k + 1), writable }
    } else {
        MountView { host_path: paths, guest_path: paths, writable }
    }
}

/// The mount that a text of the configuration stands for. One that ends in `:ro`
/// can only be read.
pub open spec fn mount_of(spec_text: Seq<char>) -> MountView {
    if ":ro"@.is_suffix_of(spec_text) {
        mount_between(spec_text.take(spec_text.len() - 3), false)
    } else {
        mount_between(spec_text, true)
    }
}

/// The mounts of a plugin: those that are listed, or else the current directory.
pub open spec fn mounts_of(specs: Seq<Seq<char>>) -> Seq<MountView> {
    if specs.len() == 0 {
        seq![MountView { host_path: "."@, guest_path: "."@, writable: true }]
    } else {
        specs.map_values(|s: Seq<char>| mount_of(s))
    }
}

/// Whether a text ends in `:ro`.
fn is_read_only(chars: &[char]) -> (found: bool)
    ensures
        found == ":ro"@.is_suffix_of(chars@),
{
    proof {
        reveal_strlit(":ro");
        assert(":ro"@ =~= seq![':', 'r', 'o']);
    }
    let n: usize = chars.len();
    if n < 3 {
        return false;
    }
    let found = chars[n - 3] == ':' && chars[n - 2] == 'r' && chars[n - 1] == 'o';
    proof {
        let tail = chars@.subrange(n - 3, n as int);
        if found {
            assert(":ro"@ =~= tail);
        } else {
            assert(":ro"@[0] == ':' && ":ro"@[1] == 'r' && ":ro"@[2] == 'o');
            assert(tail[0] == chars@[n - 3] && tail[1] == chars@[n - 2] && tail[2] == chars@[n
                - 1]);
        }
    }
    found
}

/// The mount that a text of the configuration stands for.
fn parse_mount_spec(spec_text: &str) -> (mount: Mount)
    ensures
        mount@ == mount_of(spec_text@),
{
    proof {
        reveal_strlit(":ro");
    }
    let chars = chars_of(spec_text);
    let read_only = is_read_only(chars.as_slice());
    let end: usize = if read_only {
        chars.len() - 3
    } else {
        chars.len()
    };
    let paths = slice_subrange(chars.as_slice(), 0, end);
    assert(read_only ==> paths@ =~= spec_text@.take(spec_text@.len() - 3));
    assert(!read_only ==> paths@ =~= spec_text@);
    let k: usize = find_char_in(paths, ':');
    if k < paths.len() {
        let host = slice_subrange(paths, 0, k);
        let guest = slice_subrange(paths, k + 1, paths.len());
        assert(host@ =~= paths@.take(k as int));
        assert(guest@ =~= paths@.skip(k + 1));
        Mount { host_path: string_of(host), guest_path: string_of(guest), writable: !read_only }
    } else {
        Mount { host_path: string_of(paths), guest_path: string_of(paths), writable: !read_only }
    }
}

/// What a plugin may see of the file system and of the environment.
#[derive(Debug)]
pub struct WasmPermissions {
    pub mounts: Vec<String>,
    pub env: Vec<String>,
}

pub struct WasmPermissionsView {
    pub mounts: Seq<Seq<char>>,
    pub env: Seq<Seq<char>>,
}

impl View for WasmPermissions {
    type V = WasmPermissionsView;

    open spec fn view(&self) -> WasmPermissionsView {
        WasmPermissionsView { mounts: texts(self.mounts@), env: texts(self.env@) }
    }
}

impl Clone for WasmPermissions {
    fn clone(&self) -> (copy: Self)
        ensures
            copy@ == self@,
    {
        WasmPermissions { mounts: copy_texts(&self.mounts), env: copy_texts(&self.env) }
    }
}

impl Default for WasmPermissions {
    fn default() -> (permissions: Self)
        ensures
            permissions@ == (WasmPermissionsView { mounts: Seq::empty(), env: Seq::empty() }),
    {
        let permissions = WasmPermissions { mounts: Vec::new(), env: Vec::new() };
        assert(texts(permissions.mounts@) =~= Seq::empty());
        assert(texts(permissions.env@) =~= Seq::empty());
        permissions
    }
}

impl WasmPermissions {
    /// The directories that the plugin sees.
    pub fn resolved_mounts(&self) -> (mounts: Vec<Mount>)
        ensures
            mount_views(mounts@) == mounts_of(self@.mounts),
    {
        let ghost specs = self@.mounts;
        let ghost all = specs.map_values(|s: Seq<char>| mount_of(s));
        let mut mounts: Vec<Mount> = Vec::new();
        let mut i: usize = 0;
        while i < self.mounts.len()
            invariant
                specs == texts(self.mounts@),
                all == specs.map_values(|s: Seq<char>| mount_of(s)),
                i <= self.mounts@.len(),
                mount_views(mounts@) =~= all.take(i as int),
            decreases self.mounts@.len() - i,
        {
            let ghost before = mounts@;
            let mount = parse_mount_spec(self.mounts[i].as_str());
            let ghost added = mount@;
            mounts.push(mount);
            assert(specs[i as int] == self.mounts@[i as int]@);
            assert(mount_views(mounts@) =~= mount_views(before).push(added));
            i += 1;
        }
        assert(mount_views(mounts@).len() == mounts@.len());
        if mounts.len() == 0 {
            mounts.push(
                Mount {
                    host_path: ".".to_string(),
                    guest_path: ".".to_string(),
                    writable: true,
                },
            );
        }
        assert(mount_views(mounts@) =~= mounts_of(specs));
        mounts
    }
}

/// A plugin of the configuration.
#[derive(Debug)]
pub struct WasmToolConfig {
    pub name: String,
    pub wasm: String,
    pub description: Option<String>,
    pub permissions: WasmPermissions,
}

pub struct ToolConfigView {
    pub name: Seq<char>,
    pub wasm: Seq<char>,
    pub description: Option<Seq<char>>,
    pub permissions: WasmPermissionsView,
}

impl View for WasmToolConfig {
    type V = ToolConfigView;

    open spec fn view(&self) -> ToolConfigView {
        ToolConfigView {
            name: self.name@,
            wasm: self.wasm@,
            description: maybe_text(self.description),
            permissions: self.permissions@,
        }
    }
}

impl Clone for WasmToolConfig {
    fn clone(&self) -> (copy: Self)
        ensures
            copy@ == self@,
    {
        WasmToolConfig {
            name: self.name.clone(),
            wasm: self.wasm.clone(),
            description: copy_maybe(&self.description),
            permissions: self.permissions.clone(),
        }
    }
}

pub open spec fn tool_views(tools: Seq<WasmToolConfig>) -> Seq<ToolConfigView> {
    tools.map_values(|t: WasmToolConfig| t@)
}

#[derive(Debug)]
pub struct ProviderConfig {
    pub name: Option<String>,
}

/// A configuration.
#[derive(Debug)]
pub struct Config {
    pub model: Option<String>,
    pub region: Option<String>,
    pub system_prompt: Option<String>,
    pub provider: Option<ProviderConfig>,
    pub permissions: Permissions,
    pub tools: Vec<WasmToolConfig>,
}

pub struct ConfigView {
    pub model: Option<Seq<char>>,
    pub region: Option<Seq<char>>,
    pub system_prompt: Option<Seq<char>>,
    pub provider: Option<Option<Seq<char>>>,
    pub permissions: PermissionsView,
    pub tools: Seq<ToolConfigView>,
}

impl View for Config {
    type V = ConfigView;

    open spec fn view(&self) -> ConfigView {
        ConfigView {
            model: maybe_text(self.model),
            region: maybe_text(self.region),
            system_prompt: maybe_text(self.system_prompt),
            provider: match self.provider {
                Some(provider) => Some(maybe_text(provider.name)),
                None => None,
            },
            permissions: self.permissions@,
            tools: tool_views(self.tools@),
        }
    }
}

/// The configuration where there is none.
pub open spec fn default_config() -> ConfigView {
    ConfigView {
        model: None,
        region: None,
        system_prompt: None,
        provider: None,
        permissions: default_permissions(),
        tools: Seq::empty(),
    }
}

impl Default for Config {
    fn default() -> (config: Self)
        ensures
            config@ == default_config(),
    {
        let config = Config {
            model: None,
            region: None,
            system_prompt: None,
            provider: None,
            permissions: Permissions::given(None, None, None, None),
            tools: Vec::new(),
        };
        assert(tool_views(config.tools@) =~= Seq::empty());
        config
    }
}

/// The directory of the configuration: that of the XDG environment, or else one
/// in the home directory.
pub open spec fn config_dir_of(xdg: Option<Seq<char>>, home: Option<Seq<char>>) -> Option<
    Seq<char>,
> {
    match (xdg, home) {
        (Some(xdg), _) => Some(joined_path(xdg, "asobi"@)),
        (None, Some(home)) => Some(joined_path(home, ".asobi"@)),
        (None, None) => None,
    }
}

/// The directory of the configuration. `xdg` is the value of `XDG_CONFIG_HOME`.
pub fn config_dir(xdg: &Option<String>, home: &Option<String>) -> (dir: Option<String>)
    ensures
        maybe_text(dir) == config_dir_of(maybe_text(*xdg), maybe_text(*home)),
{
    match xdg {
        Some(xdg) => Some(join_path(xdg.as_str(), "asobi")),
        None => match home {
            Some(home) => Some(join_path(home.as_str(), ".asobi")),
            None => None,
        },
    }
}

/// The file of the configuration in its directory.
pub fn config_path(dir: &str) -> (path: String)
    ensures
        path@ == joined_path(dir@, "config.toml"@),
{
    join_path(dir, "config.toml")
}

/// The global configuration, from its directory and what its file holds. Where
/// there is no directory, or the file cannot be read, the default counts.
pub fn load(dir: &Option<String>, read: Option<Result<Config, String>>) -> (config: Result<
    Config,
    String,
>)
    ensures
        match (*dir, read) {
            (Some(dir), Some(Ok(read))) => config == Ok::<Config, String>(read),
            (Some(dir), Some(Err(error))) => config matches Err(message) && message@
                == joined_path(dir@, "config.toml"@) + ": "@ + error@,
            _ => config matches Ok(config) && config@ == default_config(),
        },
{
    match dir {
        Some(dir) => match read {
            Some(Ok(config)) => Ok(config),
            Some(Err(error)) => {
                let mut message = config_path(dir.as_str());
                message.append(": ");
                message.append(error.as_str());
                Err(message)
            },
            None => Ok(Config::default()),
        },
        None => Ok(Config::default()),
    }
}

/// The configuration of the current directory, from what its file holds.
pub fn load_local(read: Option<Result<Config, String>>) -> (config: Result<Option<Config>, String>)
    ensures
        match read {
            Some(Ok(read)) => config == Ok::<Option<Config>, String>(Some(read)),
            Some(Err(error)) => config matches Err(message) && message@ == ".asobi/config.toml: "@
                + error@,
            None => config == Ok::<Option<Config>, String>(None),
        },
{
    match read {
        Some(Ok(config)) => Ok(Some(config)),
        Some(Err(error)) => {
            let mut message = ".asobi/config.toml: ".to_string();
            message.append(error.as_str());
            Err(message)
        },
        None => Ok(None),
    }
}

/// A tool of that name is among others.
pub open spec fn has_tool(tools: Seq<ToolConfigView>, name: Seq<char>) -> bool {
    exists|i: int| 0 <= i < tools.len() && #[trigger] tools[i].name == name
}

/// A local tool, with its file as seen from the current directory.
pub open spec fn placed(tool: ToolConfigView, cwd: Seq<char>) -> ToolConfigView {
    ToolConfigView {
        wasm: if is_absolute(tool.wasm) {
            tool.wasm
        } else {
            joined_path(cwd, tool.wasm)
        },
        ..tool
    }
}

/// The global tools and then the local ones. Of a name the first counts.
pub open spec fn merged_tools(
    global: Seq<ToolConfigView>,
    local: Seq<ToolConfigView>,
    cwd: Seq<char>,
) -> Seq<ToolConfigView>
    decreases local.len(),
{
    if local.len() == 0 {
        global
    } else {
        let some = merged_tools(global, local.drop_last(), cwd);
        if has_tool(some, local.last().name) {
            some
        } else {
            some.push(placed(local.last(), cwd))
        }
    }
}

/// The current directory, or what stands for it where there is none.
pub open spec fn dir_or_here(cwd: CurrentDirView) -> Seq<char> {
    match cwd {
        CurrentDirView::Unknown => "."@,
        CurrentDirView::Text(path) => path,
        CurrentDirView::Bytes(path) => shown_text(path),
    }
}

pub open spec fn maybe_config(config: Option<Config>) -> Option<ConfigView> {
    match config {
        Some(config) => Some(config@),
        None => None,
    }
}

/// What counts when a directory may have a configuration of its own.
pub open spec fn merged_config(
    global: ConfigView,
    local: Option<ConfigView>,
    cwd: CurrentDirView,
) -> (ConfigView, PermissionsView, Seq<ToolConfigView>) {
    match local {
        Some(local) => (
            global,
            intersected(global.permissions, local.permissions, cwd),
            merged_tools(global.tools, local.tools, dir_or_here(cwd)),
        ),
        None => (global, global.permissions, global.tools),
    }
}

/// Whether a tool of that name is among others.
fn finds_tool(tools: &Vec<WasmToolConfig>, name: &str) -> (found: bool)
    ensures
        found == has_tool(tool_views(tools@), name@),
{
    let mut i: usize = 0;
    while i < tools.len()
        invariant
            i <= tools@.len(),
            forall|j: int| 0 <= j < i ==> #[trigger] tool_views(tools@)[j].name != name@,
        decreases tools@.len() - i,
    {
        assert(tool_views(tools@)[i as int] == tools@[i as int]@);
        if same(tools[i].name.as_str(), name) {
            assert(tool_views(tools@)[i as int].name == name@);
            return true;
        }
        i += 1;
    }
    false
}

/// The same tools once more.
fn copy_tools(tools: &Vec<WasmToolConfig>) -> (copies: Vec<WasmToolConfig>)
    ensures
        tool_views(copies@) == tool_views(tools@),
{
    let mut copies: Vec<WasmToolConfig> = Vec::new();
    let mut i: usize = 0;
    while i < tools.len()
        invariant
            i <= tools@.len(),
            tool_views(copies@) =~= tool_views(tools@).take(i as int),
        decreases tools@.len() - i,
    {
        let ghost before = copies@;
        let copy = tools[i].clone();
        let ghost added = copy@;
        copies.push(copy);
        assert(tool_views(copies@) =~= tool_views(before).push(added));
        i += 1;
    }
    copies
}

/// The global tools and then the local ones.
pub fn merge_tools(
    global: &Vec<WasmToolConfig>,
    local: &Vec<WasmToolConfig>,
    cwd: &str,
) -> (tools: Vec<WasmToolConfig>)
    ensures
        tool_views(tools@) == merged_tools(tool_views(global@), tool_views(local@), cwd@),
{
    let mut tools = copy_tools(global);
    let ghost first = tool_views(global@);
    let ghost all = tool_views(local@);
    let mut i: usize = 0;
    assert(all.take(0) =~= Seq::empty());
    while i < local.len()
        invariant
            first == tool_views(global@),
            all == tool_views(local@),
            i <= local@.len(),
            tool_views(tools@) == merged_tools(first, all.take(i as int), cwd@),
        decreases local@.len() - i,
    {
        let ghost before = tools@;
        assert(all[i as int] == local@[i as int]@);
        let mut tool = local[i].clone();
        if !is_absolute_path(tool.wasm.as_str()) {
            tool.wasm = join_path(cwd, tool.wasm.as_str());
        }
        if !finds_tool(&tools, tool.name.as_str()) {
            let ghost added = tool@;
            tools.push(tool);
            assert(tool_views(tools@) =~= tool_views(before).push(added));
        }
        assert(all.take(i + 1).drop_last() =~= all.take(i as int));
        i += 1;
    }
    assert(all.take(i as int) =~= all);
    tools
}

/// What counts when a directory may have a configuration of its own. Relative
/// paths are seen from `cwd`.
pub fn merge_configs(global: Config, local: Option<Config>, cwd: &CurrentDir) -> (merged: (
    Config,
    Permissions,
    Vec<WasmToolConfig>,
))
    ensures
        (merged.0@, merged.1@, tool_views(merged.2@)) == merged_config(
            global@,
            maybe_config(local),
            cwd@,
        ),
{
    match local {
        Some(local) => {
            let permissions = global.permissions.intersect_from(&local.permissions, cwd);
            let here = match cwd {
                CurrentDir::Unknown => ".".to_string(),
                CurrentDir::Text(path) => path.clone(),
                CurrentDir::Bytes(path) => show_bytes(path.as_slice()),
            };
            let tools = merge_tools(&global.tools, &local.tools, here.as_str());
            (global, permissions, tools)
        },
        None => {
            let permissions = global.permissions.clone();
            let tools = copy_tools(&global.tools);
            (global, permissions, tools)
        },
    }
}

/// What counts when a directory may have a configuration of its own, or the
/// first error. Relative paths are seen from the current directory.
pub fn load_merged(
    global: Result<Config, String>,
    local: Result<Option<Config>, String>,
) -> (merged: Result<(Config, Permissions, Vec<WasmToolConfig>), String>)
    ensures
        match (global, local) {
            (Ok(global), Ok(local)) => merged matches Ok(merged) && exists|cwd: CurrentDirView|
                (merged.0@, merged.1@, tool_views(merged.2@)) == #[trigger] merged_config(
                    global@,
                    maybe_config(local),
                    cwd,
                ),
            (Ok(_), Err(error)) => merged == Err::<
                (Config, Permissions, Vec<WasmToolConfig>),
                String,
            >(error),
            (Err(error), _) => merged == Err::<(Config, Permissions, Vec<WasmToolConfig>), String>(
                error,
            ),
        },
{
    let global = match global {
        Ok(global) => global,
        Err(error) => return Err(error),
    };
    let local = match local {
        Ok(local) => local,
        Err(error) => return Err(error),
    };
    let cwd = current_dir();
    Ok(merge_configs(global, local, &cwd))
}

/// No two tools have the same name.
pub open spec fn names_differ(tools: Seq<ToolConfigView>) -> bool {
    forall|i: int, j: int|
        0 <= i < j < tools.len() ==> #[trigger] tools[i].name != #[trigger] tools[j].name
}

/// Merging keeps the global tools as they are, in front, and adds no second tool
/// of a name.
pub proof fn law_merging_keeps_global_tools(
    global: Seq<ToolConfigView>,
    local: Seq<ToolConfigView>,
    cwd: Seq<char>,
)
    ensures
        global.is_prefix_of(merged_tools(global, local, cwd)),
        names_differ(global) ==> names_differ(merged_tools(global, local, cwd)),
    decreases local.len(),
{
    if local.len() > 0 {
        law_merging_keeps_global_tools(global, local.drop_last(), cwd);
    }
}

/// Every local tool has one of its name among the merged tools.
pub proof fn law_merging_loses_no_tool(
    global: Seq<ToolConfigView>,
    local: Seq<ToolConfigView>,
    cwd: Seq<char>,
    i: int,
)
    requires
        0 <= i < local.len(),
    ensures
        has_tool(merged_tools(global, local, cwd), local[i].name),
    decreases local.len(),
{
    let some = merged_tools(global, local.drop_last(), cwd);
    let merged = merged_tools(global, local, cwd);
    if i < local.len() - 1 {
        law_merging_loses_no_tool(global, local.drop_last(), cwd, i);
        let k = choose|k: int| 0 <= k < some.len() && #[trigger] some[k].name == local[i].name;
        assert(merged[k].name == local[i].name);
    } else if !has_tool(some, local[i].name) {
        assert(merged[some.len() as int].name == local[i].name);
    }
}

/// `host:guest:ro` mounts a directory that can only be read, whatever the guest
/// calls it.
pub proof fn law_read_only_mount(host: Seq<char>, guest: Seq<char>)
    requires
        !host.contains(':'),
    ensures
        mount_of(host.push(':') + guest + ":ro"@) == (MountView {
            host_path: host,
            guest_path: guest,
            writable: false,
        }),
{
    reveal_strlit(":ro");
    let paths = host.push(':') + guest;
    let all = paths + ":ro"@;
    assert(":ro"@ =~= all.subrange(all.len() - 3, all.len() as int));
    assert(all.take(all.len() - 3) =~= paths);
    lemma_first_char(host, ':', guest);
    assert(paths.take(host.len() as int) =~= host);
    assert(paths.skip(host.len() as int + 1) =~= guest);
}

/// `host:guest` mounts a directory that can be written, unless it ends in `:ro`.
pub proof fn law_writable_mount(host: Seq<char>, guest: Seq<char>)
    requires
        !host.contains(':'),
        !":ro"@.is_suffix_of(host.push(':') + guest),
    ensures
        mount_of(host.push(':') + guest) == (MountView {
            host_path: host,
            guest_path: guest,
            writable: true,
        }),
{
    let paths = host.push(':') + guest;
    lemma_first_char(host, ':', guest);
    assert(paths.take(host.len() as int) =~= host);
    assert(paths.skip(host.len() as int + 1) =~= guest);
}

/// A path is allowed where `/` is, and where it lies under a place that is.
pub proof fn law_path_under_an_allowed_place_is_allowed(
    allowed: Seq<Seq<char>>,
    path: Seq<char>,
    cwd: CurrentDirView,
)
    ensures
        path_allowed(allowed, path, cwd) <==> exists|i: int|
            0 <= i < allowed.len() && (#[trigger] allowed[i] == "/"@ || is_under(
                absolute_parts(path, cwd),
                absolute_parts(allowed[i], cwd),
            )),
{
    if path_allowed(allowed, path, cwd) {
        if allowed.contains(root()) {
            let i = choose|i: int| 0 <= i < allowed.len() && allowed[i] == root();
            assert(allowed[i] == "/"@);
        }
    }
    if exists|i: int| 0 <= i < allowed.len() && #[trigger] allowed[i] == "/"@ {
        let i = choose|i: int| 0 <= i < allowed.len() && #[trigger] allowed[i] == "/"@;
        assert(allowed.contains(allowed[i]));
    }
}

/// Where neither side lists `/`, a local place is kept exactly where it lies under one of
/// the global places, whichever it is, and the places that are kept keep their order.
pub proof fn law_local_places_are_kept_one_by_one(
    global: Seq<Seq<char>>,
    local: Seq<Seq<char>>,
    place: Seq<char>,
    cwd: CurrentDirView,
)
    requires
        !global.contains("/"@),
        !local.contains("/"@),
        place != "/"@,
    ensures
        common_places(global, Seq::empty(), cwd) == Seq::<Seq<char>>::empty(),
        common_places(global, local.push(place), cwd) == if exists|i: int|
            0 <= i < global.len() && is_under(
                absolute_parts(place, cwd),
                absolute_parts(#[trigger] global[i], cwd),
            ) {
            common_places(global, local, cwd) + seq![place]
        } else {
            common_places(global, local, cwd)
        },
{
    let keep = |p: Seq<char>| within(global, p, cwd);
    let more = local.push(place);
    assert(!more.contains("/"@)) by {
        if more.contains("/"@) {
            let i = choose|i: int| 0 <= i < more.len() && more[i] == "/"@;
            if i < local.len() {
                assert(local[i] == "/"@);
            }
        }
    }
    reveal(Seq::filter);
    assert(more.drop_last() =~= local);
    assert(Seq::<Seq<char>>::empty().filter(keep) =~= Seq::empty());
    let some = local.filter(keep);
    assert(some.push(place) =~= some + seq![place]);
}

/// Where one side lists `/`, the merged places are those of the other.
pub proof fn law_root_leaves_the_other_side(
    global: Seq<Seq<char>>,
    local: Seq<Seq<char>>,
    cwd: CurrentDirView,
)
    ensures
        global.contains("/"@) ==> common_places(global, local, cwd) == local,
        !global.contains("/"@) && local.contains("/"@) ==> common_places(global, local, cwd)
            == global,
{
}

proof fn lemma_kept_by_filter(all: Seq<Seq<char>>, keep: spec_fn(Seq<char>) -> bool, i: int)
    requires
        0 <= i < all.len(),
        keep(all[i]),
    ensures
        all.filter(keep).contains(all[i]),
    decreases all.len(),
{
    reveal(Seq::filter);
    let some = all.drop_last().filter(keep);
    if i < all.len() - 1 {
        lemma_kept_by_filter(all.drop_last(), keep, i);
        assert(all.drop_last()[i] == all[i]);
        let j = choose|j: int| 0 <= j < some.len() && some[j] == all[i];
        assert(all.filter(keep)[j] == all[i]);
    } else {
        assert(all.filter(keep)[some.len() as int] == all[i]);
    }
}

/// What lies under a local place that lies under a global one is allowed by the merged
/// permissions, whichever of the places they are.
pub proof fn law_places_of_both_stay_allowed(
    global: Seq<Seq<char>>,
    local: Seq<Seq<char>>,
    i: int,
    k: int,
    path: Seq<char>,
    cwd: CurrentDirView,
)
    requires
        0 <= i < global.len(),
        0 <= k < local.len(),
        is_under(absolute_parts(local[k], cwd), absolute_parts(global[i], cwd)),
        is_under(absolute_parts(path, cwd), absolute_parts(local[k], cwd)),
    ensures
        path_allowed(common_places(global, local, cwd), path, cwd),
        !global.contains("/"@) && !local.contains("/"@) ==> common_places(
            global,
            local,
            cwd,
        ).contains(local[k]),
{
    let merged = common_places(global, local, cwd);
    if global.contains(root()) {
        assert(merged[k] == local[k]);
    } else if local.contains(root()) {
        law_under_is_transitive(
            absolute_parts(path, cwd),
            absolute_parts(local[k], cwd),
            absolute_parts(global[i], cwd),
        );
        assert(merged[i] == global[i]);
    } else {
        let keep = |p: Seq<char>| within(global, p, cwd);
        assert(within(global, local[k], cwd));
        lemma_kept_by_filter(local, keep, k);
        let j = choose|j: int| 0 <= j < merged.len() && merged[j] == local[k];
        assert(is_under(absolute_parts(path, cwd), absolute_parts(merged[j], cwd)));
    }
}

/// Merged permissions are merged field by field: what may be read of what may be read,
/// what may be written of what may be written; the commands that are allowed are the
/// local ones, unless those are `*` alone; those that are denied are the global ones and
/// then the local ones that are not among them.
pub proof fn law_permissions_are_merged_field_by_field(
    global: PermissionsView,
    local: PermissionsView,
    cwd: CurrentDirView,
)
    ensures
        ({
            let merged = intersected(global, local, cwd);
            &&& merged.fs_read == common_places(global.fs_read, local.fs_read, cwd)
            &&& merged.fs_write == common_places(global.fs_write, local.fs_write, cwd)
            &&& local.allowed_commands.len() == 1 && local.allowed_commands[0] == "*"@
                ==> merged.allowed_commands == global.allowed_commands
            &&& !(local.allowed_commands.len() == 1 && local.allowed_commands[0] == "*"@)
                ==> merged.allowed_commands == local.allowed_commands
            &&& merged.denied_commands == both(global.denied_commands, local.denied_commands)
        }),
{
    if local.allowed_commands.len() == 1 && local.allowed_commands[0] == "*"@ {
        assert(local.allowed_commands =~= seq![any_command()]);
    } else if local.allowed_commands == seq![any_command()] {
        assert(local.allowed_commands[0] == any_command());
    }
}

/// The denied commands of both sides: one that is there already is not added again, any
/// other comes at the end.
pub proof fn law_denied_commands_add_up(
    first: Seq<Seq<char>>,
    second: Seq<Seq<char>>,
    command: Seq<char>,
)
    ensures
        both(first, Seq::empty()) == first,
        both(first, second.push(command)) == if first.contains(command) || second.contains(
            command,
        ) {
            both(first, second)
        } else {
            both(first, second) + seq![command]
        },
{
    law_merged_permissions_deny_what_either_denies(first, second, command);
    assert(second.push(command).drop_last() =~= second);
    let some = both(first, second);
    assert(some.push(command) =~= some + seq![command]);
}

/// A command may run exactly where no denied text stands in it and its first word is
/// allowed, or every command is.
pub proof fn law_command_runs_by_its_first_word(
    permissions: PermissionsView,
    before: Seq<char>,
    word: Seq<char>,
    rest: Seq<char>,
)
    requires
        is_spaces(before),
        forall|i: int| 0 <= i < word.len() ==> !is_space(#[trigger] word[i]),
        rest.len() > 0 ==> word.len() > 0 && is_space(rest[0]),
    ensures
        ({
            let command = before + word + rest;
            command_allowed(permissions, command) <==> {
                &&& forall|i: int|
                    0 <= i < permissions.denied_commands.len() ==> !contains_text(
                        command,
                        #[trigger] permissions.denied_commands[i],
                    )
                &&& permissions.allowed_commands.contains("*"@)
                    || permissions.allowed_commands.contains(word)
            }
        }),
{
    law_first_word_stands_between_white_space(before, word, rest);
}

/// A command in which a denied text stands does not run, whatever is allowed.
pub proof fn law_denied_text_stops_a_command(
    permissions: PermissionsView,
    before: Seq<char>,
    i: int,
    behind: Seq<char>,
)
    requires
        0 <= i < permissions.denied_commands.len(),
    ensures
        !command_allowed(permissions, before + permissions.denied_commands[i] + behind),
{
    let command = before + permissions.denied_commands[i] + behind;
    law_contained_text_has_surroundings(command, permissions.denied_commands[i]);
}

/// A list that the configuration leaves out stands for everything that it could allow, or
/// for nothing that it could deny; one that it gives counts as it is.
pub proof fn law_left_out_is_allowed(list: Vec<String>)
    ensures
        default_permissions().fs_read == seq!["/"@],
        default_permissions().fs_write == seq!["/"@],
        default_permissions().allowed_commands == seq!["*"@],
        default_permissions().denied_commands == Seq::<Seq<char>>::empty(),
        given_or(Some(list), seq!["/"@]) == texts(list@),
        given_or(None, seq!["/"@]) == seq!["/"@],
        default_config().permissions == default_permissions(),
        default_config().tools.len() == 0,
        default_config().model is None && default_config().region is None
            && default_config().system_prompt is None,
{
}

/// Each text of the list is one mount, in order; where there is none, the current
/// directory is mounted and can be written.
pub proof fn law_mounts_are_listed_one_by_one(specs: Seq<Seq<char>>)
    ensures
        specs.len() > 0 ==> mounts_of(specs).len() == specs.len() && forall|i: int|
            0 <= i < specs.len() ==> mounts_of(specs)[i] == mount_of(#[trigger] specs[i]),
        specs.len() == 0 ==> mounts_of(specs) == seq![
            MountView { host_path: "."@, guest_path: "."@, writable: true },
        ],
{
}

/// A mount without a colon has one path for both sides; `:ro` behind it makes it one that
/// can only be read.
pub proof fn law_mount_of_one_path(path: Seq<char>)
    requires
        !path.contains(':'),
    ensures
        mount_of(path) == (MountView { host_path: path, guest_path: path, writable: true }),
        mount_of(path + ":ro"@) == (MountView {
            host_path: path,
            guest_path: path,
            writable: false,
        }),
{
    reveal_strlit(":ro");
    let k = find_char(path, ':') as int;
    law_character_is_found_first(path, ':');
    if k < path.len() {
        assert(path.contains(path[k]));
    }
    assert(!":ro"@.is_suffix_of(path)) by {
        if ":ro"@.is_suffix_of(path) {
            let tail = path.subrange(path.len() - 3, path.len() as int);
            assert(tail[0] == ":ro"@[0]);
            assert(path[path.len() - 3] == ':');
            assert(path.contains(path[path.len() - 3]));
        }
    }
    let all = path + ":ro"@;
    assert(all.subrange(all.len() - 3, all.len() as int) =~= ":ro"@);
    assert(":ro"@.is_suffix_of(all));
    assert(all.take(all.len() - 3) =~= path);
}

/// The configuration is in the directory `asobi` of the XDG directory, or else in
/// `.asobi` in the home directory.
pub proof fn law_configuration_has_its_directory(
    xdg: Seq<char>,
    home: Seq<char>,
    other: Option<Seq<char>>,
)
    ensures
        config_dir_of(Some(xdg), other) == Some(joined_path(xdg, "asobi"@)),
        config_dir_of(None, Some(home)) == Some(joined_path(home, ".asobi"@)),
        config_dir_of(None, None) is None,
{
}

/// A local tool of a new name comes behind the tools before it, with its file seen from
/// the directory and all else as it is; one whose name is taken is left out.
pub proof fn law_local_tools_are_added_one_by_one(
    global: Seq<ToolConfigView>,
    local: Seq<ToolConfigView>,
    tool: ToolConfigView,
    cwd: Seq<char>,
)
    ensures
        merged_tools(global, Seq::empty(), cwd) == global,
        ({
            let before = merged_tools(global, local, cwd);
            let after = merged_tools(global, local.push(tool), cwd);
            if exists|i: int| 0 <= i < before.len() && #[trigger] before[i].name == tool.name {
                after == before
            } else {
                &&& after.len() == before.len() + 1
                &&& after.take(before.len() as int) == before
                &&& after.last().name == tool.name
                &&& after.last().wasm == joined_path(cwd, tool.wasm)
                &&& after.last().description == tool.description
                &&& after.last().permissions == tool.permissions
            }
        }),
{
    assert(local.push(tool).drop_last() =~= local);
    let before = merged_tools(global, local, cwd);
    let after = merged_tools(global, local.push(tool), cwd);
    if !has_tool(before, tool.name) {
        assert(after.take(before.len() as int) =~= before);
    }
}

/// The local configuration narrows the permissions and adds tools; nothing else of it
/// counts. Without one the global configuration counts alone.
pub proof fn law_local_configuration_only_narrows_and_adds(
    global: ConfigView,
    local: ConfigView,
    cwd: CurrentDirView,
)
    ensures
        merged_config(global, None, cwd) == (global, global.permissions, global.tools),
        merged_config(global, Some(local), cwd).0 == global,
        merged_config(global, Some(local), cwd).1 == intersected(
            global.permissions,
            local.permissions,
            cwd,
        ),
        merged_config(global, Some(local), cwd).2 == merged_tools(
            global.tools,
            local.tools,
            match cwd {
                CurrentDirView::Unknown => "."@,
                CurrentDirView::Text(path) => path,
                CurrentDirView::Bytes(path) => shown_text(path),
            },
        ),
{
}

}
