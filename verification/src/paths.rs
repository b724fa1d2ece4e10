//! Paths as the archive stores them and as the host wants them.
//!
//! An archive may name any path it likes. Before a file is created, its
//! path is taken apart at both kinds of separator, every part that could
//! lead out of the extraction root is refused, and what is left is joined
//! with the separator of the host.

use crate::error::DzipError;
use crate::text::{chars_of, string_of};
use vstd::prelude::*;

verus! {

/// Whether `c` separates the parts of a path: a slash or a backslash.
pub open spec fn is_sep(c: char) -> bool {
    c == '/' || c == '\\'
}

/// Whether `c` separates the parts of a path.
#[verifier::when_used_as_spec(is_sep)]
pub fn is_separator(c: char) -> (b: bool)
    ensures
        b == is_sep(c),
{
    c == '/' || c == '\\'
}

/// The first index from `i` on at which `s` holds a separator, or the
/// length of `s` where there is none.
pub open spec fn first_sep(s: Seq<char>, i: int) -> int
    decreases s.len() - i,
{
    if i < 0 || i >= s.len() {
        s.len() as int
    } else if is_sep(s[i]) {
        i
    } else {
        first_sep(s, i + 1)
    }
}

/// `first_sep` never goes back and never leaves the text.
pub proof fn lemma_first_sep_bounds(s: Seq<char>, i: int)
    requires
        0 <= i <= s.len(),
    ensures
        i <= first_sep(s, i) <= s.len(),
    decreases s.len() - i,
{
    if i < s.len() && !is_sep(s[i]) {
        lemma_first_sep_bounds(s, i + 1);
    }
}

/// The parts of `s` from index `i` on, cut at every separator. Two
/// separators in a row, or one at the end, leave an empty part.
pub open spec fn components_from(s: Seq<char>, i: int) -> Seq<Seq<char>>
    decreases s.len() - i,
{
    if i < 0 || i > s.len() {
        Seq::empty()
    } else {
        let n = first_sep(s, i);
        if n >= s.len() {
            seq![s.subrange(i, s.len() as int)]
        } else {
            proof {
                lemma_first_sep_bounds(s, i);
            }
            seq![s.subrange(i, n)] + components_from(s, n + 1)
        }
    }
}

/// The parts of a path.
pub open spec fn components(s: Seq<char>) -> Seq<Seq<char>> {
    components_from(s, 0)
}

/// The part that stands for the directory itself.
pub open spec fn dot() -> Seq<char> {
    seq!['.']
}

/// The part that stands for the directory above.
pub open spec fn dot_dot() -> Seq<char> {
    seq!['.', '.']
}

/// Whether `c` is one of the 52 letters that can name a drive.
pub open spec fn is_drive_letter(c: char) -> bool {
    (0x41 <= c as u32 <= 0x5A) || (0x61 <= c as u32 <= 0x7A)
}

/// Whether a path starts with a drive: a letter and a colon.
pub open spec fn has_drive_prefix(s: Seq<char>) -> bool {
    s.len() >= 2 && is_drive_letter(s[0]) && s[1] == ':'
}

/// Whether a part is kept: it is neither empty nor the directory itself.
pub open spec fn is_kept(part: Seq<char>) -> bool {
    part.len() > 0 && part != dot()
}

/// The parts that are kept, in order.
pub open spec fn kept(parts: Seq<Seq<char>>) -> Seq<Seq<char>> {
    parts.filter(|p: Seq<char>| is_kept(p))
}

/// The parts joined with `sep` between them.
pub open spec fn joined(parts: Seq<Seq<char>>, sep: char) -> Seq<char>
    decreases parts.len(),
{
    if parts.len() == 0 {
        Seq::empty()
    } else if parts.len() == 1 {
        parts[0]
    } else {
        joined(parts.drop_last(), sep) + seq![sep] + parts.last()
    }
}

/// Why a path is refused.
pub enum PathFault {
    /// A part of the path is `..`.
    Traversal,
    /// The path starts with a drive.
    Absolute,
    /// Nothing is left of the path.
    Empty,
}

/// Why a path is refused, if it is: a path that starts with a drive, then
/// one that holds `..`, then one of which nothing is left.
pub open spec fn path_fault(path: Seq<char>) -> Option<PathFault> {
    let parts = components(path);
    if has_drive_prefix(path) {
        Some(PathFault::Absolute)
    } else if parts.contains(dot_dot()) {
        Some(PathFault::Traversal)
    } else if kept(parts).len() == 0 {
        Some(PathFault::Empty)
    } else {
        None
    }
}

/// The safe relative form of a path: without the parts that are empty or
/// `.`, which also drops every leading separator, and joined with `sep`.
pub open spec fn clean_path(path: Seq<char>, sep: char) -> Result<Seq<char>, PathFault> {
    match path_fault(path) {
        Some(fault) => Err(fault),
        None => Ok(joined(kept(components(path)), sep)),
    }
}

/// `rel` below `base`: the base, a separator unless the base is empty or
/// ends in one, and the safe form of `rel`.
pub open spec fn sanitized(base: Seq<char>, rel: Seq<char>, sep: char) -> Result<
    Seq<char>,
    PathFault,
> {
    match clean_path(rel, sep) {
        Err(fault) => Err(fault),
        Ok(clean) => if base.len() == 0 {
            Ok(clean)
        } else if is_sep(base.last()) {
            Ok(base + clean)
        } else {
            Ok(base + seq![sep] + clean)
        },
    }
}

/// The text of the error for each fault.
pub open spec fn fault_text(fault: PathFault) -> Seq<char> {
    match fault {
        PathFault::Traversal => "directory traversal"@,
        PathFault::Absolute => "absolute path"@,
        PathFault::Empty => "empty path"@,
    }
}

/// Whether `r` is outcome `expected` of a path function: the same text, or
/// a `Security` error with the text of the fault.
pub open spec fn is_path_outcome(
    r: Result<String, DzipError>,
    expected: Result<Seq<char>, PathFault>,
) -> bool {
    match expected {
        Ok(text) => r is Ok && r->Ok_0@ == text,
        Err(fault) => r is Err && r->Err_0 is Security && r->Err_0->Security_0@ == fault_text(fault),
    }
}

/// A separator at `n` with none between `i` and `n` is what `first_sep` finds.
pub proof fn lemma_first_sep_is(s: Seq<char>, i: int, n: int)
    requires
        0 <= i <= n <= s.len(),
        forall|k: int| i <= k < n ==> !is_sep(s[k]),
        n < s.len() ==> is_sep(s[n]),
    ensures
        first_sep(s, i) == n,
    decreases n - i,
{
    if i < n {
        lemma_first_sep_is(s, i + 1, n);
    }
}

/// The texts of a list of character vectors.
pub open spec fn parts_view(parts: Seq<Vec<char>>) -> Seq<Seq<char>> {
    parts.map_values(|p: Vec<char>| p@)
}

/// Cuts a path at every separator.
pub fn split_path(path: &Vec<char>) -> (parts: Vec<Vec<char>>)
    ensures
        parts_view(parts@) == components(path@),
{
    let mut parts: Vec<Vec<char>> = Vec::new();
    let mut current: Vec<char> = Vec::new();
    let ghost mut start: int = 0;
    let mut i: usize = 0;
    proof {
        assert(parts_view(parts@) =~= Seq::empty());
        assert(parts_view(parts@) + components_from(path@, 0) =~= components(path@));
        assert(path@.subrange(0, 0) =~= current@);
    }
    while i < path.len()
        invariant
            0 <= start <= i <= path@.len(),
            current@ == path@.subrange(start, i as int),
            forall|k: int| start <= k < i ==> !is_sep(path@[k]),
            components(path@) == parts_view(parts@) + components_from(path@, start),
        decreases path@.len() - i,
    {
        let c = path[i];
        if is_separator(c) {
            proof {
                lemma_first_sep_is(path@, start, i as int);
                assert(parts_view(parts@.push(current)) =~= parts_view(parts@).push(current@));
                assert(parts_view(parts@) + (seq![current@] + components_from(path@, i + 1))
                    =~= parts_view(parts@).push(current@) + components_from(path@, i + 1));
                assert(path@.subrange(i + 1, i + 1) =~= Seq::<char>::empty());
            }
            parts.push(current);
            current = Vec::new();
            proof {
                start = i + 1;
            }
        } else {
            current.push(c);
            proof {
                assert(current@ =~= path@.subrange(start, i + 1));
            }
        }
        i += 1;
    }
    proof {
        lemma_first_sep_is(path@, start, path@.len() as int);
        assert(parts_view(parts@.push(current)) =~= parts_view(parts@).push(current@));
        assert(parts_view(parts@) + seq![current@] =~= parts_view(parts@).push(current@));
    }
    parts.push(current);
    parts
}

/// Whether a part is `..`.
fn is_parent(part: &Vec<char>) -> (b: bool)
    ensures
        b == (part@ == dot_dot()),
{
    let b = part.len() == 2 && part[0] == '.' && part[1] == '.';
    proof {
        if b {
            assert(part@ =~= dot_dot());
        }
    }
    b
}

/// Whether a part is kept.
fn keeps(part: &Vec<char>) -> (b: bool)
    ensures
        b == is_kept(part@),
{
    if part.len() == 0 {
        return false;
    }
    let b = !(part.len() == 1 && part[0] == '.');
    proof {
        if !b {
            assert(part@ =~= dot());
        }
    }
    b
}

/// Whether a path starts with a drive.
fn starts_with_drive(path: &Vec<char>) -> (b: bool)
    ensures
        b == has_drive_prefix(path@),
{
    if path.len() < 2 {
        return false;
    }
    let c = path[0] as u32;
    ((0x41 <= c && c <= 0x5A) || (0x61 <= c && c <= 0x7A)) && path[1] == ':'
}

/// The `Security` error for a fault.
fn security(fault: PathFault) -> (r: Result<String, DzipError>)
    ensures
        is_path_outcome(r, Err(fault)),
{
    match fault {
        PathFault::Traversal => Err(DzipError::Security(String::from_str("directory traversal"))),
        PathFault::Absolute => Err(DzipError::Security(String::from_str("absolute path"))),
        PathFault::Empty => Err(DzipError::Security(String::from_str("empty path"))),
    }
}

/// The safe relative form of `path`, joined with `sep`.
///
/// Fails with `Security` where the path starts with a drive, holds a part
/// `..`, or has no part left.
pub fn clean_relative_path(path: &str, sep: char) -> (r: Result<String, DzipError>)
    ensures
        is_path_outcome(r, clean_path(path@, sep)),
{
    let chars = chars_of(path);
    if starts_with_drive(&chars) {
        return security(PathFault::Absolute);
    }
    let parts = split_path(&chars);
    let ghost all = components(path@);
    let mut i: usize = 0;
    while i < parts.len()
        invariant
            i <= parts@.len(),
            parts_view(parts@) == all,
            all == components(path@),
            !has_drive_prefix(path@),
            forall|k: int| 0 <= k < i ==> all[k] != dot_dot(),
        decreases parts@.len() - i,
    {
        if is_parent(&parts[i]) {
            assert(all[i as int] == dot_dot());
            assert(all.contains(dot_dot()));
            return security(PathFault::Traversal);
        }
        i += 1;
    }
    assert(!all.contains(dot_dot()));
    let mut out: Vec<char> = Vec::new();
    let mut count: usize = 0;
    let mut i: usize = 0;
    proof {
        assert(all.take(0) =~= Seq::empty());
        assert(kept(all.take(0)) =~= Seq::empty());
    }
    while i < parts.len()
        invariant
            i <= parts@.len(),
            parts_view(parts@) == all,
            count == kept(all.take(i as int)).len(),
            out@ == joined(kept(all.take(i as int)), sep),
        decreases parts@.len() - i,
    {
        let part = &parts[i];
        proof {
            assert(all.take(i + 1).drop_last() =~= all.take(i as int));
            assert(all.take(i + 1).last() == part@);
            reveal(Seq::filter);
        }
        if keeps(part) {
            let ghost before = kept(all.take(i as int));
            proof {
                assert(kept(all.take(i + 1)) == before.push(part@));
                assert(before.push(part@).drop_last() =~= before);
            }
            if count > 0 {
                out.push(sep);
            }
            let mut k: usize = 0;
            let ghost prefix = out@;
            while k < part.len()
                invariant
                    k <= part@.len(),
                    out@ == prefix + part@.take(k as int),
                decreases part@.len() - k,
            {
                out.push(part[k]);
                assert(out@ =~= prefix + part@.take(k + 1));
                k += 1;
            }
            proof {
                assert(part@.take(part@.len() as int) =~= part@);
                if count == 0 {
                    assert(before =~= Seq::empty());
                    assert(out@ =~= part@);
                }
            }
            count = count + 1;
        }
        i += 1;
    }
    proof {
        assert(all.take(parts@.len() as int) =~= all);
    }
    if count == 0 {
        return security(PathFault::Empty);
    }
    Ok(string_of(out.as_slice()))
}

/// `rel` below `base`, joined with `sep`; see [`sanitized`].
pub fn sanitize_path_with(base: &str, rel: &str, sep: char) -> (r: Result<String, DzipError>)
    ensures
        is_path_outcome(r, sanitized(base@, rel@, sep)),
{
    let clean = match clean_relative_path(rel, sep) {
        Err(e) => {
            return Err(e);
        },
        Ok(text) => text,
    };
    let mut out = chars_of(base);
    let ghost base_chars = out@;
    if out.len() > 0 && !is_separator(out[out.len() - 1]) {
        out.push(sep);
        assert(out@ =~= base_chars + seq![sep]);
    }
    let tail = chars_of(clean.as_str());
    let ghost prefix = out@;
    let mut k: usize = 0;
    while k < tail.len()
        invariant
            k <= tail@.len(),
            out@ == prefix + tail@.take(k as int),
        decreases tail@.len() - k,
    {
        out.push(tail[k]);
        assert(out@ =~= prefix + tail@.take(k + 1));
        k += 1;
    }
    proof {
        assert(tail@.take(tail@.len() as int) =~= tail@);
        if base_chars.len() == 0 {
            assert(out@ =~= tail@);
        } else if is_sep(base_chars.last()) {
            assert(out@ =~= base_chars + tail@);
        } else {
            assert(out@ =~= base_chars + seq![sep] + tail@);
        }
    }
    Ok(string_of(out.as_slice()))
}

/// The separator of the host, read from `std::path::MAIN_SEPARATOR`: a
/// slash or a backslash, depending on the platform the library was built for.
#[verifier::external_body]
pub(crate) fn native_separator() -> (c: char)
    ensures
        is_sep(c),
{
    std::path::MAIN_SEPARATOR
}

/// The path of a file that lies at `rel_path_str` below `base`, safe to
/// create and with the separator of the host.
///
/// Fails with `Security` where `rel_path_str` starts with a drive, holds a
/// part `..`, or has no part left.
pub fn sanitize_path(base: &str, rel_path_str: &str) -> (r: Result<String, DzipError>)
    ensures
        is_path_outcome(r, sanitized(base@, rel_path_str@, '/')) || is_path_outcome(
            r,
            sanitized(base@, rel_path_str@, '\\'),
        ),
{
    sanitize_path_with(base, rel_path_str, native_separator())
}

/// A path with every separator replaced by `sep`.
pub open spec fn with_separator(path: Seq<char>, sep: char) -> Seq<char> {
    path.map_values(|c: char| if is_sep(c) { sep } else { c })
}

/// A path with every separator replaced by `sep`.
pub fn to_native_path_with(path: &str, sep: char) -> (r: String)
    ensures
        r@ == with_separator(path@, sep),
{
    let chars = chars_of(path);
    let mut out: Vec<char> = Vec::new();
    let mut i: usize = 0;
    while i < chars.len()
        invariant
            i <= chars@.len(),
            out@.len() == i,
            forall|k: int| 0 <= k < i ==> out@[k] == with_separator(chars@, sep)[k],
        decreases chars@.len() - i,
    {
        let c = chars[i];
        if is_separator(c) {
            out.push(sep);
        } else {
            out.push(c);
        }
        i += 1;
    }
    assert(out@ =~= with_separator(path@, sep));
    string_of(out.as_slice())
}

/// A path with every separator replaced by that of the host.
pub fn to_native_path(path: &str) -> (r: String)
    ensures
        r@ == with_separator(path@, '/') || r@ == with_separator(path@, '\\'),
{
    to_native_path_with(path, native_separator())
}

/// The parts of a path that lead somewhere: empty parts and `.` are
/// dropped, and `..` takes back the part before it, if there is one.
pub open spec fn resolved(parts: Seq<Seq<char>>) -> Seq<Seq<char>>
    decreases parts.len(),
{
    if parts.len() == 0 {
        Seq::empty()
    } else {
        let before = resolved(parts.drop_last());
        let last = parts.last();
        if !is_kept(last) {
            before
        } else if last == dot_dot() {
            if before.len() > 0 {
                before.drop_last()
            } else {
                before
            }
        } else {
            before.push(last)
        }
    }
}

/// The path of a source file below the directory that is packed: the
/// parts that lead somewhere, joined with `sep`. Such a path never leads
/// out of the directory.
pub open spec fn source_path(path: Seq<char>, sep: char) -> Seq<char> {
    joined(resolved(components(path)), sep)
}

/// The parts joined with `sep` between them.
pub fn join_parts(parts: &Vec<Vec<char>>, sep: char) -> (r: String)
    ensures
        r@ == joined(parts_view(parts@), sep),
{
    let ghost all = parts_view(parts@);
    let mut out: Vec<char> = Vec::new();
    let mut i: usize = 0;
    proof {
        assert(all.take(0) =~= Seq::empty());
    }
    while i < parts.len()
        invariant
            i <= parts@.len(),
            all == parts_view(parts@),
            out@ == joined(all.take(i as int), sep),
        decreases parts@.len() - i,
    {
        let part = &parts[i];
        proof {
            assert(all.take(i + 1).drop_last() =~= all.take(i as int));
            assert(all.take(i + 1).last() == part@);
            assert(all.take(i + 1)[0] == all[0]);
        }
        if i > 0 {
            out.push(sep);
        }
        let ghost prefix = out@;
        let mut k: usize = 0;
        while k < part.len()
            invariant
                k <= part@.len(),
                out@ == prefix + part@.take(k as int),
            decreases part@.len() - k,
        {
            out.push(part[k]);
            assert(out@ =~= prefix + part@.take(k + 1));
            k += 1;
        }
        proof {
            assert(part@.take(part@.len() as int) =~= part@);
            if i == 0 {
                assert(out@ =~= part@);
            }
        }
        i += 1;
    }
    proof {
        assert(all.take(parts@.len() as int) =~= all);
    }
    string_of(out.as_slice())
}

/// The path of a source file below the directory that is packed.
pub fn source_relative_path(path: &str, sep: char) -> (r: String)
    ensures
        r@ == source_path(path@, sep),
{
    let chars = chars_of(path);
    let parts = split_path(&chars);
    let ghost all = components(path@);
    let mut stack: Vec<Vec<char>> = Vec::new();
    let mut i: usize = 0;
    proof {
        assert(all.take(0) =~= Seq::empty());
        assert(parts_view(stack@) =~= Seq::empty());
    }
    while i < parts.len()
        invariant
            i <= parts@.len(),
            parts_view(parts@) == all,
            parts_view(stack@) == resolved(all.take(i as int)),
        decreases parts@.len() - i,
    {
        let part = &parts[i];
        proof {
            assert(all.take(i + 1).drop_last() =~= all.take(i as int));
            assert(all.take(i + 1).last() == part@);
        }
        if keeps(part) {
            if is_parent(part) {
                if stack.len() > 0 {
                    let ghost before = stack@;
                    stack.pop();
                    proof {
                        assert(parts_view(stack@) =~= parts_view(before).drop_last());
                    }
                }
            } else {
                let mut copy: Vec<char> = Vec::new();
                let mut k: usize = 0;
                while k < part.len()
                    invariant
                        k <= part@.len(),
                        copy@ == part@.take(k as int),
                    decreases part@.len() - k,
                {
                    copy.push(part[k]);
                    assert(copy@ =~= part@.take(k + 1));
                    k += 1;
                }
                proof {
                    assert(part@.take(part@.len() as int) =~= part@);
                }
                let ghost before = stack@;
                stack.push(copy);
                proof {
                    assert(parts_view(stack@) =~= parts_view(before).push(part@));
                }
            }
        }
        i += 1;
    }
    proof {
        assert(all.take(parts@.len() as int) =~= all);
    }
    join_parts(&stack, sep)
}

} // verus!
