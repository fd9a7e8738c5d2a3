//! Paths inside archives.

use vstd::prelude::*;
use vstd::utf8::{decode_utf8, valid_utf8};

use crate::error::{invalid_archive, DzipError, Trouble, Utf8Detail, Utf8Failure};

verus! {

/// How many of the bytes are in the way of UTF-8, behind those that are UTF-8.
pub uninterp spec fn unexpected_len(bytes: Seq<u8>) -> Option<usize>;

/// Checks that bytes are UTF-8, by [`core::str::from_utf8`], which takes all UTF-8 and nothing
/// else. Its error tells how long the longest beginning is that it would take, and how many
/// bytes behind that are in the way; none if the bytes end there too early, which is one to
/// three bytes later. How many they are otherwise depends on the bytes alone.
#[verifier::external_body]
pub(crate) fn check_utf8(bytes: &[u8]) -> (result: Result<(), (usize, Option<usize>)>)
    ensures
        result is Ok == valid_utf8(bytes@),
        result matches Err((valid, length)) ==> {
            &&& valid <= bytes@.len()
            &&& valid_utf8(bytes@.take(valid as int))
            &&& forall|i: int| valid < i <= bytes@.len() ==> !valid_utf8(#[trigger] bytes@.take(i))
            &&& length == unexpected_len(bytes@)
            &&& length is None ==> 1 <= bytes@.len() - valid <= 3
            &&& length matches Some(length) ==> 1 <= length <= bytes@.len() - valid
        },
{
    match core::str::from_utf8(bytes) {
        Ok(_) => Ok(()),
        Err(error) => Err((error.valid_up_to(), error.error_len())),
    }
}

/// The length of the longest beginning of at most `n` bytes that is UTF-8.
pub open spec fn utf8_prefix(bytes: Seq<u8>, n: nat) -> nat
    decreases n,
{
    if n == 0 || valid_utf8(bytes.take(n as int)) {
        n
    } else {
        utf8_prefix(bytes, (n - 1) as nat)
    }
}

/// What is known of bytes that are not UTF-8.
pub open spec fn utf8_detail(bytes: Seq<u8>) -> Utf8Detail {
    Utf8Detail {
        bytes,
        valid_up_to: utf8_prefix(bytes, bytes.len()) as usize,
        error_len: unexpected_len(bytes),
    }
}

proof fn lemma_utf8_prefix(bytes: Seq<u8>, valid: nat, n: nat)
    requires
        valid <= n <= bytes.len(),
        valid_utf8(bytes.take(valid as int)),
        forall|i: int| valid < i <= bytes.len() ==> !valid_utf8(#[trigger] bytes.take(i)),
    ensures
        utf8_prefix(bytes, n) == valid,
    decreases n,
{
    if valid < n {
        assert(!valid_utf8(bytes.take(n as int)));
        lemma_utf8_prefix(bytes, valid, (n - 1) as nat);
    }
}

/// Tells whether bytes are UTF-8.
pub fn is_utf8(bytes: &[u8]) -> (valid: bool)
    ensures
        valid == valid_utf8(bytes@),
{
    check_utf8(bytes).is_ok()
}

/// Refuses bytes that are not UTF-8.
pub fn ensure_utf8(bytes: &[u8]) -> (result: Result<(), DzipError>)
    ensures
        match result {
            Ok(()) => valid_utf8(bytes@),
            Err(error) => !valid_utf8(bytes@) && error@ == Trouble::Utf8(utf8_detail(bytes@)),
        },
{
    match check_utf8(bytes) {
        Ok(()) => Ok(()),
        Err((valid, length)) => {
            proof {
                lemma_utf8_prefix(bytes@, valid as nat, bytes@.len());
            }
            let mut kept: Vec<u8> = Vec::with_capacity(bytes.len());
            kept.extend_from_slice(bytes);
            assert(kept@ =~= bytes@);
            Err(DzipError::Utf8(Utf8Failure::new(kept, valid, length)))
        },
    }
}

/// The text of bytes, with a replacement character for what is not UTF-8.
pub uninterp spec fn lossy_text(bytes: Seq<u8>) -> Seq<char>;

/// The text of bytes, by [`String::from_utf8_lossy`]. It depends on the bytes alone, and where
/// they are UTF-8 it is what they encode. Where the replacement characters stand otherwise is
/// not stated.
#[verifier::external_body]
pub(crate) fn text_of(bytes: &[u8]) -> (text: String)
    ensures
        text@ == lossy_text(bytes@),
        valid_utf8(bytes@) ==> text@ == decode_utf8(bytes@),
{
    String::from_utf8_lossy(bytes).into_owned()
}

/// `/` and `\\` part the components of a path.
pub open spec fn separator(byte: u8) -> bool {
    byte == 0x2f || byte == 0x5c
}

pub open spec fn dot() -> Seq<u8> {
    seq![0x2e]
}

pub open spec fn dot_dot() -> Seq<u8> {
    seq![0x2e, 0x2e]
}

/// The path with one more component; nothing if it would leave the root.
pub open spec fn entered(stack: Seq<Seq<u8>>, component: Seq<u8>) -> Option<Seq<Seq<u8>>> {
    if component.len() == 0 || component == dot() {
        Some(stack)
    } else if component == dot_dot() {
        if stack.len() == 0 {
            None
        } else {
            Some(stack.drop_last())
        }
    } else {
        Some(stack.push(component))
    }
}

/// The components of a path from `i` on, the current one having begun at `start`.
pub open spec fn components_from(path: Seq<u8>, start: int, i: int, stack: Seq<Seq<u8>>) -> Option<
    Seq<Seq<u8>>,
>
    decreases path.len() - i,
{
    if i >= path.len() {
        entered(stack, path.subrange(start, i))
    } else if separator(path[i]) {
        match entered(stack, path.subrange(start, i)) {
            None => None,
            Some(stack) => components_from(path, i + 1, i + 1, stack),
        }
    } else {
        components_from(path, start, i + 1, stack)
    }
}

/// The path begins at a root of the file system.
pub open spec fn rooted(path: Seq<u8>) -> bool {
    ||| path.len() >= 1 && separator(path[0])
    ||| path.len() >= 2 && path[1] == 0x3a
}

/// The components of a relative path that stays below its root.
pub open spec fn components(path: Seq<u8>) -> Option<Seq<Seq<u8>>> {
    if rooted(path) {
        None
    } else {
        components_from(path, 0, 0, seq![])
    }
}

/// The first `n` components with separators between them.
pub open spec fn joined(components: Seq<Seq<u8>>, separator: u8, n: nat) -> Seq<u8>
    decreases n,
{
    if n == 0 {
        seq![]
    } else if n == 1 {
        components[0]
    } else {
        joined(components, separator, (n - 1) as nat).push(separator) + components[n - 1]
    }
}

/// The path in its plain form: no `.`, no `..`, `/` between the components.
pub open spec fn plain_path(path: Seq<u8>) -> Option<Seq<u8>> {
    match components(path) {
        None => None,
        Some(list) => Some(joined(list, 0x2f, list.len())),
    }
}

/// The error about a path that leaves its root.
pub open spec fn unsafe_path() -> Trouble {
    Trouble::InvalidArchive("path leaves the archive root"@)
}

/// The components behind a list of them.
pub open spec fn parts_of(list: Seq<Vec<u8>>) -> Seq<Seq<u8>> {
    Seq::new(list.len(), |i: int| list[i]@)
}

fn same(a: &[u8], b: &[u8]) -> (same: bool)
    ensures
        same == (a@ == b@),
{
    if a.len() != b.len() {
        return false;
    }
    let mut i: usize = 0;
    while i < a.len()
        invariant
            i <= a@.len(),
            a@.len() == b@.len(),
            forall|k: int| 0 <= k < i ==> #[trigger] a@[k] == b@[k],
        decreases a@.len() - i,
    {
        if a[i] != b[i] {
            return false;
        }
        i += 1;
    }
    assert(a@ =~= b@);
    true
}

/// Adds a component to a path; tells whether it stays below the root.
fn enter(stack: &mut Vec<Vec<u8>>, component: &[u8]) -> (safe: bool)
    ensures
        match entered(parts_of(old(stack)@), component@) {
            None => !safe,
            Some(after) => safe && parts_of(final(stack)@) == after,
        },
{
    let ghost before = stack@;
    if component.len() == 0 {
        return true;
    }
    let one: [u8; 1] = [0x2e];
    let two: [u8; 2] = [0x2e, 0x2e];
    assert(one@ =~= dot());
    assert(two@ =~= dot_dot());
    if same(component, one.as_slice()) {
        return true;
    }
    if same(component, two.as_slice()) {
        if stack.len() == 0 {
            return false;
        }
        stack.pop();
        assert(parts_of(stack@) =~= parts_of(before).drop_last());
        return true;
    }
    let mut copy: Vec<u8> = Vec::with_capacity(component.len());
    copy.extend_from_slice(component);
    assert(copy@ =~= component@);
    stack.push(copy);
    assert(parts_of(stack@) =~= parts_of(before).push(component@));
    true
}

/// The components of a relative path that stays below its root.
pub fn path_components(path: &[u8]) -> (result: Option<Vec<Vec<u8>>>)
    ensures
        match components(path@) {
            None => result is None,
            Some(list) => result matches Some(got) && parts_of(got@) == list,
        },
{
    let size: usize = path.len();
    if size >= 1 && (path[0] == 0x2f || path[0] == 0x5c) || size >= 2 && path[1] == 0x3a {
        return None;
    }
    let mut stack: Vec<Vec<u8>> = Vec::new();
    assert(parts_of(stack@) =~= seq![]);
    let mut start: usize = 0;
    let mut i: usize = 0;
    while i < size
        invariant
            start <= i <= size,
            size == path@.len(),
            components_from(path@, 0, 0, seq![]) == components_from(
                path@,
                start as int,
                i as int,
                parts_of(stack@),
            ),
        decreases size - i,
    {
        if path[i] == 0x2f || path[i] == 0x5c {
            if !enter(&mut stack, vstd::slice::slice_subrange(path, start, i)) {
                return None;
            }
            start = i + 1;
        }
        i += 1;
    }
    if !enter(&mut stack, vstd::slice::slice_subrange(path, start, size)) {
        return None;
    }
    Some(stack)
}

/// Joins the first `count` components.
pub fn join_components(list: &Vec<Vec<u8>>, separator: u8, count: usize) -> (path: Vec<u8>)
    requires
        count <= list@.len(),
    ensures
        path@ == joined(parts_of(list@), separator, count as nat),
{
    let mut path: Vec<u8> = Vec::new();
    let ghost all = parts_of(list@);
    let mut i: usize = 0;
    assert(path@ =~= joined(all, separator, 0));
    while i < count
        invariant
            i <= count <= list@.len(),
            all == parts_of(list@),
            path@ == joined(all, separator, i as nat),
        decreases count - i,
    {
        let ghost before = path@;
        if i > 0 {
            path.push(separator);
        }
        path.extend_from_slice(list[i].as_slice());
        assert(all[i as int] == list@[i as int]@);
        i += 1;
        assert(path@ =~= joined(all, separator, i as nat));
    }
    path
}

/// The plain form of a relative path.
pub fn resolve_relative_path(path: &[u8]) -> (result: Result<Vec<u8>, DzipError>)
    ensures
        match plain_path(path@) {
            Some(plain) => result matches Ok(got) && got@ == plain,
            None => result matches Err(error) && error@ == unsafe_path(),
        },
{
    match path_components(path) {
        Some(list) => {
            assert(parts_of(list@).len() == list@.len());
            Ok(join_components(&list, 0x2f, list.len()))
        },
        None => Err(invalid_archive("path leaves the archive root")),
    }
}

/// A byte as it counts when paths are compared: in lower case, with one kind of separator.
pub open spec fn key_byte(byte: u8) -> u8 {
    if byte == 0x2f {
        0x5c
    } else if 0x41 <= byte <= 0x5a {
        (byte + 0x20) as u8
    } else {
        byte
    }
}

/// What paths are compared by.
pub open spec fn path_key(path: Seq<u8>) -> Seq<u8> {
    Seq::new(path.len(), |i: int| key_byte(path[i]))
}

fn keyed(byte: u8) -> (key: u8)
    ensures
        key == key_byte(byte),
{
    if byte == 0x2f {
        0x5c
    } else if 0x41 <= byte && byte <= 0x5a {
        byte + 0x20
    } else {
        byte
    }
}

/// Tells whether two paths name the same thing.
pub fn same_path(a: &[u8], b: &[u8]) -> (same: bool)
    ensures
        same == (path_key(a@) == path_key(b@)),
{
    if a.len() != b.len() {
        assert(path_key(a@).len() != path_key(b@).len());
        return false;
    }
    let mut i: usize = 0;
    while i < a.len()
        invariant
            i <= a@.len(),
            a@.len() == b@.len(),
            forall|k: int| 0 <= k < i ==> path_key(a@)[k] == #[trigger] path_key(b@)[k],
        decreases a@.len() - i,
    {
        if keyed(a[i]) != keyed(b[i]) {
            assert(path_key(a@)[i as int] != path_key(b@)[i as int]);
            return false;
        }
        i += 1;
    }
    assert(path_key(a@) =~= path_key(b@));
    true
}

/// No component of a plain path leaves the root or stands still.
pub open spec fn all_proper(list: Seq<Seq<u8>>) -> bool {
    forall|i: int|
        0 <= i < list.len() ==> (#[trigger] list[i]).len() > 0 && list[i] != dot() && list[i]
            != dot_dot() && forall|k: int| 0 <= k < list[i].len() ==> !separator(#[trigger] list[i][k])
}

/// Paths that are accepted stay below their root: every component is a proper name.
pub proof fn lemma_components_proper(path: Seq<u8>)
    ensures
        components(path) matches Some(list) ==> all_proper(list),
{
    if !rooted(path) {
        lemma_components_from(path, 0, 0, seq![]);
    }
}

proof fn lemma_components_from(path: Seq<u8>, start: int, i: int, stack: Seq<Seq<u8>>)
    requires
        0 <= start <= i,
        start <= path.len(),
        i <= path.len(),
        all_proper(stack),
        forall|k: int| start <= k < i ==> !separator(#[trigger] path[k]),
    ensures
        components_from(path, start, i, stack) matches Some(list) ==> all_proper(list),
    decreases path.len() - i,
{
    let component = path.subrange(start, i);
    assert forall|k: int| 0 <= k < component.len() implies !separator(#[trigger] component[k]) by {
        assert(!separator(path[start + k]));
    }
    assert(entered(stack, component) matches Some(after) ==> all_proper(after));
    if i < path.len() {
        if separator(path[i]) {
            if let Some(after) = entered(stack, component) {
                lemma_components_from(path, i + 1, i + 1, after);
            }
        } else {
            lemma_components_from(path, start, i + 1, stack);
        }
    }
}

} // verus!
