//! How the entries of a new archive become files, directories and chunks.

use vstd::prelude::*;

use crate::archive::with_separator;
use crate::codec::flags::{registered, Compression};
use crate::compat::registered_compression;
use crate::error::{invalid_input, refused, DzipError, Trouble};
use crate::format::{names_of, CHUNK_RANDOMACCESS};
use crate::options::EntryOptions;
use crate::path::{
    all_proper, components, components_from, entered, join_components, joined, parts_of,
    path_components, path_key, rooted, same_path, separator,
};

verus! {

/// A file that is to be stored.
#[derive(Debug)]
pub struct BuilderEntry {
    pub archive_path: Vec<u8>,
    pub bytes: Vec<u8>,
    pub options: EntryOptions,
}

/// How an entry is stored, by its options.
pub open spec fn chosen(options: EntryOptions) -> Option<Compression> {
    match options.raw_flags {
        Some(flags) => registered(flags),
        None => Some(options.compression),
    }
}

/// The flags that record how an entry is stored.
pub open spec fn chosen_flags(options: EntryOptions) -> u16 {
    match options.raw_flags {
        Some(flags) => flags,
        None => options.compression.bit() | (if options.random_access {
            CHUNK_RANDOMACCESS
        } else {
            0
        }) | (match options.content_hint {
            Some(hint) => hint.bits(),
            None => 0,
        }),
    }
}

/// How an entry is stored, by its options.
pub fn effective_compression(options: EntryOptions) -> (result: Result<Compression, DzipError>)
    ensures
        match chosen(options) {
            Some(compression) => result matches Ok(got) && got == compression,
            None => result matches Err(error) && error@ == Trouble::UnsupportedCompression(
                options.raw_flags->Some_0,
            ),
        },
{
    match options.raw_flags {
        Some(flags) => match registered_compression(flags) {
            Some(compression) => Ok(compression),
            None => Err(DzipError::UnsupportedCompression(flags)),
        },
        None => Ok(options.compression),
    }
}

/// The flags that record how an entry is stored.
pub fn effective_flags(options: EntryOptions) -> (flags: u16)
    ensures
        flags == chosen_flags(options),
{
    match options.raw_flags {
        Some(flags) => flags,
        None => {
            let random_access: u16 = if options.random_access {
                CHUNK_RANDOMACCESS
            } else {
                0
            };
            let hint: u16 = match options.content_hint {
                Some(hint) => hint.flags(),
                None => 0,
            };
            options.compression.flag() | random_access | hint
        },
    }
}

/// The paths behind a list of entries.
pub open spec fn paths_of(entries: Seq<BuilderEntry>) -> Seq<Seq<u8>> {
    Seq::new(entries.len(), |i: int| entries[i].archive_path@)
}

/// The first place from `i` on of a path in a list, or the end of the list.
pub open spec fn place_from(list: Seq<Seq<u8>>, path: Seq<u8>, i: int) -> int
    decreases list.len() - i,
{
    if i >= list.len() || path_key(list[i]) == path_key(path) {
        i
    } else {
        place_from(list, path, i + 1)
    }
}

/// The place of a path in a list, or the end of the list.
pub open spec fn place(list: Seq<Seq<u8>>, path: Seq<u8>) -> int {
    place_from(list, path, 0)
}

/// The first `n` paths, each once.
pub open spec fn grouped(paths: Seq<Seq<u8>>, n: nat) -> Seq<Seq<u8>>
    decreases n,
{
    if n == 0 {
        seq![]
    } else {
        let list = grouped(paths, (n - 1) as nat);
        if place(list, paths[n - 1]) < list.len() {
            list
        } else {
            list.push(paths[n - 1])
        }
    }
}

pub proof fn lemma_place_from(list: Seq<Seq<u8>>, path: Seq<u8>, i: int)
    requires
        0 <= i <= list.len(),
    ensures
        i <= place_from(list, path, i) <= list.len(),
        place_from(list, path, i) < list.len() ==> path_key(list[place_from(list, path, i)])
            == path_key(path),
        forall|k: int| i <= k < place_from(list, path, i) ==> path_key(#[trigger] list[k])
            != path_key(path),
    decreases list.len() - i,
{
    if i < list.len() && path_key(list[i]) != path_key(path) {
        lemma_place_from(list, path, i + 1);
    }
}

/// A path that has its place keeps it when the list grows.
pub proof fn lemma_place_stays(list: Seq<Seq<u8>>, more: Seq<u8>, path: Seq<u8>, i: int)
    requires
        0 <= i <= list.len(),
        place_from(list, path, i) < list.len(),
    ensures
        place_from(list.push(more), path, i) == place_from(list, path, i),
    decreases list.len() - i,
{
    assert(list.push(more)[i] == list[i]);
    if path_key(list[i]) != path_key(path) {
        lemma_place_stays(list, more, path, i + 1);
    }
}

/// A path that is new to the list takes the last place.
pub proof fn lemma_place_new(list: Seq<Seq<u8>>, path: Seq<u8>, i: int)
    requires
        0 <= i <= list.len(),
        place_from(list, path, i) == list.len(),
    ensures
        place_from(list.push(path), path, i) == list.len(),
    decreases list.len() - i,
{
    if i < list.len() {
        assert(list.push(path)[i] == list[i]);
        lemma_place_new(list, path, i + 1);
    }
}

/// Every path has its place among the grouped ones, and keeps it.
pub proof fn lemma_grouped(paths: Seq<Seq<u8>>, k: int, n: nat)
    requires
        0 <= k < n <= paths.len(),
    ensures
        place(grouped(paths, n), paths[k]) < grouped(paths, n).len(),
        place(grouped(paths, n), paths[k]) == place(grouped(paths, (k + 1) as nat), paths[k]),
    decreases n,
{
    let list = grouped(paths, (n - 1) as nat);
    lemma_place_from(list, paths[n - 1], 0);
    if k == n - 1 {
        if place(list, paths[k]) == list.len() {
            lemma_place_new(list, paths[k], 0);
        }
    } else {
        lemma_grouped(paths, k, (n - 1) as nat);
        if place(list, paths[n - 1]) == list.len() {
            lemma_place_stays(list, paths[n - 1], paths[k], 0);
        }
    }
}

/// Every grouped path is one of the paths.
pub proof fn lemma_grouped_members(paths: Seq<Seq<u8>>, n: nat)
    requires
        n <= paths.len(),
    ensures
        grouped(paths, n).len() <= n,
        forall|l: int|
            0 <= l < grouped(paths, n).len() ==> exists|k: int|
                0 <= k < n && paths[k] == #[trigger] grouped(paths, n)[l],
    decreases n,
{
    if n > 0 {
        lemma_grouped_members(paths, (n - 1) as nat);
        let list = grouped(paths, (n - 1) as nat);
        lemma_place_from(list, paths[n - 1], 0);
        assert forall|l: int| 0 <= l < grouped(paths, n).len() implies exists|k: int|
            0 <= k < n && paths[k] == #[trigger] grouped(paths, n)[l] by {
            if l < list.len() {
                assert(list[l] == grouped(paths, n)[l]);
                let k = choose|k: int| 0 <= k < n - 1 && paths[k] == list[l];
                assert(paths[k] == grouped(paths, n)[l]);
            } else {
                assert(paths[n - 1] == grouped(paths, n)[l]);
            }
        }
    }
}

/// The place of a path in a list.
fn find_place(list: &Vec<Vec<u8>>, path: &[u8]) -> (found: usize)
    ensures
        found == place(names_of(list@), path@),
        found <= list@.len(),
{
    let ghost all = names_of(list@);
    let mut i: usize = 0;
    while i < list.len()
        invariant
            i <= list@.len(),
            all == names_of(list@),
            place(all, path@) == place_from(all, path@, i as int),
        decreases list@.len() - i,
    {
        assert(all[i as int] == list@[i as int]@);
        if same_path(list[i].as_slice(), path) {
            return i;
        }
        i += 1;
    }
    i
}

fn copied(bytes: &Vec<u8>) -> (copy: Vec<u8>)
    ensures
        copy@ == bytes@,
{
    crate::codec::copied(bytes.as_slice())
}

/// The chunk numbers of a file: all entries whose path has its place, the first `n` looked at.
pub open spec fn members(paths: Seq<Seq<u8>>, list: Seq<Seq<u8>>, l: int, n: nat) -> Seq<u16>
    decreases n,
{
    if n == 0 {
        seq![]
    } else {
        let rest = members(paths, list, l, (n - 1) as nat);
        if place(list, paths[n - 1]) == l {
            rest.push((n - 1) as u16)
        } else {
            rest
        }
    }
}

/// Groups the entries by path.
pub fn group_logical_files(entries: &Vec<BuilderEntry>) -> (groups: (Vec<Vec<u8>>, Vec<usize>))
    ensures
        names_of(groups.0@) == grouped(paths_of(entries@), entries@.len()),
        groups.1@.len() == entries@.len(),
        forall|i: int|
            0 <= i < entries@.len() ==> #[trigger] groups.1@[i] == place(
                names_of(groups.0@),
                paths_of(entries@)[i],
            ) && groups.1@[i] < groups.0@.len(),
{
    let ghost paths = paths_of(entries@);
    let mut list: Vec<Vec<u8>> = Vec::new();
    let mut places: Vec<usize> = Vec::with_capacity(entries.len());
    let mut i: usize = 0;
    assert(names_of(list@) =~= grouped(paths, 0));
    while i < entries.len()
        invariant
            i <= entries@.len(),
            paths == paths_of(entries@),
            names_of(list@) == grouped(paths, i as nat),
            places@.len() == i,
            forall|k: int|
                0 <= k < i ==> #[trigger] places@[k] == place(
                    grouped(paths, (k + 1) as nat),
                    paths[k],
                ),
        decreases entries@.len() - i,
    {
        assert(paths[i as int] == entries@[i as int].archive_path@);
        let found: usize = find_place(&list, entries[i].archive_path.as_slice());
        let ghost before = list@;
        proof {
            lemma_place_from(names_of(before), paths[i as int], 0);
        }
        if found == list.len() {
            proof {
                lemma_place_new(names_of(before), paths[i as int], 0);
            }
            list.push(copied(&entries[i].archive_path));
            assert(names_of(list@) =~= names_of(before).push(paths[i as int]));
        }
        places.push(found);
        i += 1;
    }
    proof {
        assert forall|k: int| 0 <= k < entries@.len() implies #[trigger] places@[k] == place(
            names_of(list@),
            paths[k],
        ) && places@[k] < list@.len() by {
            lemma_grouped(paths, k, entries@.len());
        }
    }
    (list, places)
}

/// The directory of a path, as archives store it, and the name in it.
pub open spec fn split_path(path: Seq<u8>) -> Option<(Seq<u8>, Seq<u8>)> {
    match components(path) {
        None => None,
        Some(list) => if list.len() == 0 {
            None
        } else {
            Some((joined(list, 0x5c, (list.len() - 1) as nat), list.last()))
        },
    }
}

/// The directories of the first `n` files, each once. Files at the root have none.
pub open spec fn directories(files: Seq<Seq<u8>>, n: nat) -> Seq<Seq<u8>>
    decreases n,
{
    if n == 0 {
        seq![]
    } else {
        let list = directories(files, (n - 1) as nat);
        let directory = split_path(files[n - 1])->Some_0.0;
        if directory.len() == 0 || place(list, directory) < list.len() {
            list
        } else {
            list.push(directory)
        }
    }
}

/// The number of the directory of a file, by its place among the directories.
pub open spec fn directory_id(list: Seq<Seq<u8>>, path: Seq<u8>) -> int {
    let directory = split_path(path)->Some_0.0;
    if directory.len() == 0 {
        0
    } else {
        place(list, directory) + 1
    }
}

/// The path that a reader puts together from the string table.
pub open spec fn stored_path(list: Seq<Seq<u8>>, path: Seq<u8>) -> Seq<u8> {
    let (directory, name) = split_path(path)->Some_0;
    if directory.len() == 0 {
        name
    } else {
        with_separator(list[place(list, directory)]) + name
    }
}

/// The names of the files.
pub open spec fn file_names(files: Seq<Seq<u8>>) -> Seq<Seq<u8>> {
    Seq::new(files.len(), |i: int| split_path(files[i])->Some_0.1)
}

pub open spec fn splittable(files: Seq<Seq<u8>>) -> bool {
    forall|i: int| 0 <= i < files.len() ==> split_path(#[trigger] files[i]) is Some
}

pub proof fn lemma_directories(files: Seq<Seq<u8>>, k: int, n: nat)
    requires
        0 <= k < n <= files.len(),
        split_path(files[k])->Some_0.0.len() > 0,
    ensures
        place(directories(files, n), split_path(files[k])->Some_0.0) < directories(files, n).len(),
        place(directories(files, n), split_path(files[k])->Some_0.0) == place(
            directories(files, (k + 1) as nat),
            split_path(files[k])->Some_0.0,
        ),
    decreases n,
{
    let list = directories(files, (n - 1) as nat);
    let last = split_path(files[n - 1])->Some_0.0;
    let directory = split_path(files[k])->Some_0.0;
    lemma_place_from(list, last, 0);
    if k == n - 1 {
        if place(list, directory) == list.len() {
            lemma_place_new(list, directory, 0);
        }
    } else {
        lemma_directories(files, k, (n - 1) as nat);
        if last.len() > 0 && place(list, last) == list.len() {
            lemma_place_stays(list, last, directory, 0);
        }
    }
}

/// Every directory is that of one of the files, and not empty.
pub proof fn lemma_directory_members(files: Seq<Seq<u8>>, n: nat)
    requires
        n <= files.len(),
    ensures
        directories(files, n).len() <= n,
        forall|d: int|
            0 <= d < directories(files, n).len() ==> exists|k: int|
                0 <= k < n && split_path(files[k])->Some_0.0 == #[trigger] directories(files, n)[d],
    decreases n,
{
    if n > 0 {
        lemma_directory_members(files, (n - 1) as nat);
        let list = directories(files, (n - 1) as nat);
        let all = directories(files, n);
        let last = split_path(files[n - 1])->Some_0.0;
        lemma_place_from(list, last, 0);
        assert forall|d: int| 0 <= d < all.len() implies exists|k: int|
            0 <= k < n && split_path(files[k])->Some_0.0 == #[trigger] all[d] by {
            if d < list.len() {
                assert(list[d] == all[d]);
                let k = choose|k: int|
                    0 <= k < n - 1 && split_path(files[k])->Some_0.0 == list[d];
                assert(split_path(files[k])->Some_0.0 == all[d]);
            } else {
                assert(split_path(files[n - 1])->Some_0.0 == all[d]);
            }
        }
    }
}

/// The names, directories and numbers that the string table is made of.
pub struct StringTable {
    pub names: Vec<Vec<u8>>,
    pub directories: Vec<Vec<u8>>,
    pub directory_ids: Vec<u16>,
}

/// Splits the paths of the files into directories and names.
pub fn build_string_table(files: &Vec<Vec<u8>>) -> (result: Result<StringTable, DzipError>)
    requires
        splittable(names_of(files@)),
    ensures
        match result {
            Ok(table) => {
                let paths = names_of(files@);
                let list = directories(paths, paths.len());
                &&& names_of(table.names@) == file_names(paths)
                &&& names_of(table.directories@) == list
                &&& list.len() < 0xffff
                &&& table.directory_ids@.len() == files@.len()
                &&& forall|i: int|
                    0 <= i < files@.len() ==> #[trigger] table.directory_ids@[i] == directory_id(
                        list,
                        paths[i],
                    )
            },
            Err(error) => {
                &&& error@ == refused("directory count exceeds 65535"@)
                &&& directories(names_of(files@), files@.len()).len() >= 0xffff
            },
        },
{
    let ghost paths = names_of(files@);
    let mut names: Vec<Vec<u8>> = Vec::with_capacity(files.len());
    let mut list: Vec<Vec<u8>> = Vec::new();
    let mut ids: Vec<u16> = Vec::with_capacity(files.len());
    let mut i: usize = 0;
    assert(names_of(list@) =~= directories(paths, 0));
    while i < files.len()
        invariant
            i <= files@.len(),
            paths == names_of(files@),
            splittable(paths),
            names_of(names@) == file_names(paths).take(i as int),
            names_of(list@) == directories(paths, i as nat),
            list@.len() < 0xffff,
            ids@.len() == i,
            forall|k: int|
                0 <= k < i ==> #[trigger] ids@[k] == directory_id(
                    directories(paths, (k + 1) as nat),
                    paths[k],
                ),
        decreases files@.len() - i,
    {
        assert(paths[i as int] == files@[i as int]@);
        assert(split_path(paths[i as int]) is Some);
        let parts = match path_components(files[i].as_slice()) {
            Some(parts) => parts,
            None => Vec::new(),
        };
        let count: usize = parts.len();
        assert(parts_of(parts@).len() == count);
        let ghost before_names = names@;
        names.push(copied(&parts[count - 1]));
        proof {
            assert(parts_of(parts@)[count - 1] == parts@[count - 1]@);
            assert(names_of(names@) =~= file_names(paths).take(i + 1)) by {
                assert(names_of(before_names) =~= names_of(names@).take(i as int));
            }
        }
        let directory = join_components(&parts, 0x5c, count - 1);
        let ghost before = list@;
        if directory.len() == 0 {
            ids.push(0);
        } else {
            let found: usize = find_place(&list, directory.as_slice());
            proof {
                lemma_place_from(names_of(before), directory@, 0);
            }
            if found == list.len() {
                if found >= 0xfffe {
                    proof {
                        assert(directories(paths, (i + 1) as nat).len() == found + 1);
                        lemma_directories_grow(paths, (i + 1) as nat, paths.len());
                    }
                    return Err(invalid_input("directory count exceeds 65535"));
                }
                proof {
                    lemma_place_new(names_of(before), directory@, 0);
                }
                list.push(directory);
                assert(names_of(list@) =~= names_of(before).push(directory@));
            }
            ids.push((found + 1) as u16);
        }
        i += 1;
    }
    proof {
        assert(names_of(names@) =~= file_names(paths));
        assert forall|k: int| 0 <= k < files@.len() implies #[trigger] ids@[k] == directory_id(
            directories(paths, paths.len()),
            paths[k],
        ) by {
            if split_path(paths[k])->Some_0.0.len() > 0 {
                lemma_directories(paths, k, paths.len());
            }
        }
    }
    Ok(StringTable { names, directories: list, directory_ids: ids })
}

proof fn lemma_directories_grow(files: Seq<Seq<u8>>, a: nat, b: nat)
    requires
        a <= b,
    ensures
        directories(files, a).len() <= directories(files, b).len(),
    decreases b,
{
    if a < b {
        lemma_directories_grow(files, a, (b - 1) as nat);
    }
}

/// A list of proper components, joined, has just these components.
pub proof fn lemma_joined_components(list: Seq<Seq<u8>>, between: u8)
    requires
        all_proper(list),
        separator(between),
        list.len() > 0,
        !rooted(joined(list, between, list.len())),
    ensures
        components(joined(list, between, list.len())) == Some(list),
{
    let path = joined(list, between, list.len());
    let n = list.len();
    assert(path.take(path.len() as int) =~= path);
    lemma_joined_scan(list, between, path, n);
    let last = list[n - 1];
    assert(path.subrange(path.len() - last.len(), path.len() as int) =~= last) by {
        lemma_joined_tail(list, between, n);
    }
    assert(list.take(n - 1).push(last) =~= list);
}

/// A joined list ends with its last component.
proof fn lemma_joined_tail(list: Seq<Seq<u8>>, between: u8, n: nat)
    requires
        1 <= n <= list.len(),
    ensures
        joined(list, between, n).len() >= list[n - 1].len(),
        joined(list, between, n).subrange(
            joined(list, between, n).len() - list[n - 1].len(),
            joined(list, between, n).len() as int,
        ) == list[n - 1],
        n > 1 ==> joined(list, between, n).len() == joined(list, between, (n - 1) as nat).len() + 1
            + list[n - 1].len(),
{
    let path = joined(list, between, n);
    assert(path.subrange(path.len() - list[n - 1].len(), path.len() as int) =~= list[n - 1]);
}

/// Scanning a path that begins with `n` joined components.
proof fn lemma_joined_scan(list: Seq<Seq<u8>>, between: u8, path: Seq<u8>, n: nat)
    requires
        all_proper(list),
        separator(between),
        1 <= n <= list.len(),
        joined(list, between, n).len() <= path.len(),
        path.take(joined(list, between, n).len() as int) == joined(list, between, n),
    ensures
        components_from(path, 0, 0, seq![]) == components_from(
            path,
            joined(list, between, n).len() - list[n - 1].len(),
            joined(list, between, n).len() as int,
            list.take(n - 1),
        ),
    decreases n,
{
    let whole = joined(list, between, n);
    let last = list[n - 1];
    lemma_joined_tail(list, between, n);
    let start = whole.len() - last.len();
    assert forall|k: int| start <= k < whole.len() implies !separator(#[trigger] path[k]) by {
        assert(path.take(whole.len() as int)[k] == path[k]);
        assert(whole.subrange(start, whole.len() as int)[k - start] == last[k - start]);
    }
    if n == 1 {
        assert(list.take(0) =~= seq![]);
        lemma_scan_plain(path, 0, 0, whole.len() as int, seq![]);
    } else {
        let head = joined(list, between, (n - 1) as nat);
        assert(path.take(head.len() as int) =~= head) by {
            assert forall|k: int| 0 <= k < head.len() implies path[k] == head[k] by {
                assert(path.take(whole.len() as int)[k] == whole[k]);
            }
        }
        lemma_joined_scan(list, between, path, (n - 1) as nat);
        lemma_joined_tail(list, between, (n - 1) as nat);
        let at = head.len() as int;
        assert(path[at] == between) by {
            assert(path.take(whole.len() as int)[at] == whole[at]);
        }
        let previous = list[n - 2];
        assert(path.subrange(at - previous.len(), at) =~= previous) by {
            assert(head.subrange(at - previous.len(), at) == previous);
            assert forall|k: int| at - previous.len() <= k < at implies path[k] == head[k] by {
                assert(path.take(head.len() as int)[k] == head[k]);
            }
            assert(path.subrange(at - previous.len(), at) =~= head.subrange(
                at - previous.len(),
                at,
            ));
        }
        assert(entered(list.take(n - 2), previous) == Some(list.take(n - 2).push(previous)));
        assert(list.take(n - 2).push(previous) =~= list.take(n - 1));
        lemma_scan_plain(path, at + 1, at + 1, whole.len() as int, list.take(n - 1));
    }
}

/// Scanning over bytes that part nothing.
proof fn lemma_scan_plain(path: Seq<u8>, start: int, i: int, end: int, stack: Seq<Seq<u8>>)
    requires
        0 <= start <= i <= end <= path.len(),
        forall|k: int| i <= k < end ==> !separator(#[trigger] path[k]),
    ensures
        components_from(path, start, i, stack) == components_from(path, start, end, stack),
    decreases end - i,
{
    if i < end {
        lemma_scan_plain(path, start, i + 1, end, stack);
    }
}

} // verus!
