//! Paths that are UTF-8 are taken apart and put together as UTF-8.

use vstd::prelude::*;
use vstd::utf8::{
    is_char_boundary, is_char_boundary_iff_not_is_continuation_byte, is_continuation_byte,
    pop_first_scalar, valid_first_scalar, valid_utf8, valid_utf8_concat, valid_utf8_split,
};

use crate::archive::with_separator;
use crate::builder::plan::{
    directories, grouped, lemma_directories, lemma_grouped_members, lemma_place_from, paths_of,
    place, split_path, splittable, stored_path, BuilderEntry,
};
use crate::path::{components, components_from, entered, joined, separator};
use crate::reading::all_utf8;

verus! {

/// The bytes up to a separator, and those behind it.
proof fn lemma_utf8_at(bytes: Seq<u8>, i: int)
    requires
        valid_utf8(bytes),
        0 <= i < bytes.len(),
        separator(bytes[i]),
    ensures
        valid_utf8(bytes.subrange(0, i)),
        valid_utf8(bytes.subrange(i + 1, bytes.len() as int)),
{
    assert(!is_continuation_byte(bytes[i]));
    is_char_boundary_iff_not_is_continuation_byte(bytes, i);
    assert(is_char_boundary(bytes, i));
    valid_utf8_split(bytes, i);
    let rest = bytes.subrange(i, bytes.len() as int);
    assert(rest[0] == bytes[i]);
    assert(valid_first_scalar(rest));
    assert(pop_first_scalar(rest) =~= bytes.subrange(i + 1, bytes.len() as int));
}

/// A single ASCII byte is UTF-8.
proof fn lemma_utf8_one(byte: u8)
    requires
        byte < 0x80,
    ensures
        valid_utf8(seq![byte]),
{
    let one = seq![byte];
    let code = byte as u32;
    assert(byte < 0x80 ==> (byte & 0x7f) as u32 == code) by (bit_vector)
        requires
            code == byte as u32,
    ;
    assert(pop_first_scalar(one) =~= Seq::empty());
    assert(valid_utf8(pop_first_scalar(one)));
    assert(valid_first_scalar(one));
}

/// The components of a path that is UTF-8 are UTF-8.
proof fn lemma_utf8_components(path: Seq<u8>, start: int, i: int, stack: Seq<Seq<u8>>)
    requires
        0 <= start <= i <= path.len(),
        valid_utf8(path.skip(start)),
        forall|k: int| start <= k < i ==> !separator(#[trigger] path[k]),
        all_utf8(stack),
    ensures
        components_from(path, start, i, stack) matches Some(list) ==> all_utf8(list),
    decreases path.len() - i,
{
    let rest = path.skip(start);
    let component = path.subrange(start, i);
    if i >= path.len() {
        assert(component =~= rest);
        assert(entered(stack, component) matches Some(after) ==> all_utf8(after));
    } else if separator(path[i]) {
        assert(rest[i - start] == path[i]);
        lemma_utf8_at(rest, i - start);
        assert(rest.subrange(0, i - start) =~= component);
        assert(rest.subrange(i - start + 1, rest.len() as int) =~= path.skip(i + 1));
        assert(entered(stack, component) matches Some(after) ==> all_utf8(after));
        if let Some(after) = entered(stack, component) {
            lemma_utf8_components(path, i + 1, i + 1, after);
        }
    } else {
        lemma_utf8_components(path, start, i + 1, stack);
    }
}

/// Components that are UTF-8 are UTF-8 together.
proof fn lemma_utf8_joined(list: Seq<Seq<u8>>, between: u8, n: nat)
    requires
        all_utf8(list),
        between < 0x80,
        n <= list.len(),
    ensures
        valid_utf8(joined(list, between, n)),
    decreases n,
{
    if n == 1 {
        assert(valid_utf8(list[0]));
    } else if n > 1 {
        let head = joined(list, between, (n - 1) as nat);
        lemma_utf8_joined(list, between, (n - 1) as nat);
        lemma_utf8_one(between);
        valid_utf8_concat(head, seq![between]);
        assert(head + seq![between] =~= head.push(between));
        assert(valid_utf8(list[n - 1]));
        valid_utf8_concat(head.push(between), list[n - 1]);
    }
}

/// The plain form of a path that is UTF-8 is UTF-8, as are its directory and its name.
pub proof fn lemma_utf8_path(path: Seq<u8>)
    requires
        valid_utf8(path),
    ensures
        components(path) matches Some(list) ==> valid_utf8(joined(list, 0x2f, list.len())),
        split_path(path) matches Some((directory, name)) ==> valid_utf8(directory) && valid_utf8(
            name,
        ),
{
    assert(path.skip(0) =~= path);
    lemma_utf8_components(path, 0, 0, seq![]);
    if let Some(list) = components(path) {
        lemma_utf8_joined(list, 0x2f, list.len());
        if list.len() > 0 {
            lemma_utf8_joined(list, 0x5c, (list.len() - 1) as nat);
            assert(valid_utf8(list[list.len() - 1]));
        }
    }
}

proof fn lemma_utf8_directories(files: Seq<Seq<u8>>, n: nat)
    requires
        n <= files.len(),
        all_utf8(files),
        splittable(files),
    ensures
        all_utf8(directories(files, n)),
    decreases n,
{
    if n > 0 {
        lemma_utf8_directories(files, (n - 1) as nat);
        assert(valid_utf8(files[n - 1]));
        lemma_utf8_path(files[n - 1]);
    }
}

/// The path that a reader puts together is UTF-8.
pub proof fn lemma_utf8_stored(files: Seq<Seq<u8>>, l: int)
    requires
        all_utf8(files),
        splittable(files),
        0 <= l < files.len(),
    ensures
        valid_utf8(stored_path(directories(files, files.len()), files[l])),
{
    let folders = directories(files, files.len());
    let (directory, name) = split_path(files[l])->Some_0;
    assert(valid_utf8(files[l]));
    lemma_utf8_path(files[l]);
    if directory.len() > 0 {
        lemma_utf8_directories(files, files.len());
        lemma_directories(files, l, files.len());
        lemma_place_from(folders, directory, 0);
        let folder = folders[place(folders, directory)];
        assert(valid_utf8(folder));
        lemma_utf8_one(0x5c);
        valid_utf8_concat(folder, seq![0x5c]);
        assert(folder + seq![0x5cu8] =~= folder.push(0x5c));
        valid_utf8_concat(with_separator(folder), name);
    }
}

/// The grouped paths of entries are UTF-8.
pub proof fn lemma_utf8_grouped(entries: Seq<BuilderEntry>)
    requires
        all_utf8(paths_of(entries)),
    ensures
        all_utf8(grouped(paths_of(entries), entries.len())),
{
    let paths = paths_of(entries);
    let list = grouped(paths, entries.len());
    lemma_grouped_members(paths, entries.len());
    assert forall|l: int| 0 <= l < list.len() implies valid_utf8(#[trigger] list[l]) by {
        let k = choose|k: int| 0 <= k < entries.len() && paths[k] == list[l];
        assert(valid_utf8(paths[k]));
    }
}

} // verus!
