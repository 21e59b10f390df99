//! Path text: its components, and how `..` is collapsed without asking the
//! file system.
//!
//! A path is a byte string. Its components are the pieces between
//! separators; empty pieces and `.` pieces other than a leading one are
//! skipped. A path that begins with a separator has the root as its first
//! component, written here as the empty byte string.
//!
//! On Windows a path may begin with a prefix, which is then its first
//! component: a drive, `C:`, or the server and share of a network path,
//! `\\server\share`. A network path always has the root behind its prefix.
//! Every other text that begins with two separators, such as `\\?\C:` or
//! `\\.\COM1`, is read as a network path.

use vstd::prelude::*;
use crate::bytes::{bytes_copy, views};
use crate::platform::Platform;

verus! {

/// The byte `.`.
pub const DOT: u8 = 0x2e;

/// The byte `:`.
pub const COLON: u8 = 0x3a;

/// The component `.`, the directory itself.
pub open spec fn cur_dir() -> Seq<u8> {
    seq![DOT]
}

/// The component `..`, the directory above.
pub open spec fn parent_dir() -> Seq<u8> {
    seq![DOT, DOT]
}

/// The component that stands for the root of the file system.
pub open spec fn root_dir() -> Seq<u8> {
    Seq::empty()
}

/// `src` with every separator of the other platform replaced by the one
/// that `platform` writes.
pub open spec fn sanitised(src: Seq<u8>, platform: Platform) -> Seq<u8> {
    Seq::new(
        src.len(),
        |i: int|
            if src[i] == platform.alt_sep() {
                platform.main_sep()
            } else {
                src[i]
            },
    )
}

/// The pieces of `src` between separators, empty ones included. There is
/// always one piece more than there are separators.
pub open spec fn pieces(src: Seq<u8>, platform: Platform) -> Seq<Seq<u8>>
    decreases src.len(),
{
    if src.len() == 0 {
        seq![Seq::<u8>::empty()]
    } else {
        let before = pieces(src.drop_last(), platform);
        if platform.is_sep(src.last()) {
            before.push(Seq::<u8>::empty())
        } else {
            before.drop_last().push(before.last().push(src.last()))
        }
    }
}

/// Whether the piece at position `index` names a component: it is not
/// empty, and it is not a `.` unless it is the first piece.
pub open spec fn names_component(piece: Seq<u8>, index: int) -> bool {
    piece.len() > 0 && (index == 0 || piece != cur_dir())
}

/// The pieces that name a component, in order.
pub open spec fn named(ps: Seq<Seq<u8>>) -> Seq<Seq<u8>>
    decreases ps.len(),
{
    if ps.len() == 0 {
        Seq::empty()
    } else if names_component(ps.last(), ps.len() - 1) {
        named(ps.drop_last()).push(ps.last())
    } else {
        named(ps.drop_last())
    }
}

/// Whether `src` begins at the root.
pub open spec fn is_rooted(src: Seq<u8>, platform: Platform) -> bool {
    src.len() > 0 && platform.is_sep(src[0])
}

/// The components of text without a prefix: the root if the text begins
/// with a separator, then every piece that names a component.
pub open spec fn body(src: Seq<u8>, platform: Platform) -> Seq<Seq<u8>> {
    if is_rooted(src, platform) {
        seq![root_dir()] + named(pieces(src, platform))
    } else {
        named(pieces(src, platform))
    }
}

/// An ASCII letter.
pub open spec fn is_letter(b: u8) -> bool {
    (0x41 <= b && b <= 0x5a) || (0x61 <= b && b <= 0x7a)
}

/// How many bytes stand in front of the first separator of `s`; the length
/// where there is none.
pub open spec fn name_len(s: Seq<u8>, platform: Platform) -> int
    decreases s.len(),
{
    if s.len() == 0 || platform.is_sep(s[0]) {
        0
    } else {
        1 + name_len(s.skip(1), platform)
    }
}

/// Whether `src` begins with a drive: on Windows, a letter and a colon.
pub open spec fn has_drive(src: Seq<u8>, platform: Platform) -> bool {
    platform == Platform::Windows && src.len() >= 2 && is_letter(src[0]) && src[1] == COLON
}

/// Whether `src` begins as a network path does: on Windows, with two
/// separators.
pub open spec fn has_share(src: Seq<u8>, platform: Platform) -> bool {
    platform == Platform::Windows && src.len() >= 2 && platform.is_sep(src[0])
        && platform.is_sep(src[1])
}

/// How many bytes the prefix of `src` takes; 0 where it has none. A drive
/// takes two. A network path's prefix is the two separators, the name of
/// the server, one separator and the name of the share; it ends earlier
/// where the text does.
pub open spec fn prefix_len(src: Seq<u8>, platform: Platform) -> int {
    if has_drive(src, platform) {
        2
    } else if has_share(src, platform) {
        let server = 2 + name_len(src.skip(2), platform);
        if server < src.len() {
            server + 1 + name_len(src.skip(server + 1), platform)
        } else {
            server
        }
    } else {
        0
    }
}

/// Whether `text` is a drive and nothing more.
pub open spec fn is_drive(text: Seq<u8>, platform: Platform) -> bool {
    has_drive(text, platform) && text.len() == 2
}

/// The components of `src`: its prefix, if it has one, then the components
/// of what stands behind the prefix. Behind the prefix of a network path
/// the root is a component even where the text ends with the prefix.
pub open spec fn components(src: Seq<u8>, platform: Platform) -> Seq<Seq<u8>> {
    let n = prefix_len(src, platform);
    if !has_drive(src, platform) && !has_share(src, platform) {
        body(src, platform)
    } else if has_share(src, platform) && n == src.len() {
        seq![src.take(n), root_dir()]
    } else {
        seq![src.take(n)] + body(src.skip(n), platform)
    }
}

/// The components that are left when each `..` has taken away the component
/// kept just before it. A `..` with nothing before it disappears.
pub open spec fn collapsed(parts: Seq<Seq<u8>>) -> Seq<Seq<u8>>
    decreases parts.len(),
{
    if parts.len() == 0 {
        Seq::empty()
    } else {
        let kept = collapsed(parts.drop_last());
        if parts.last() == parent_dir() {
            if kept.len() > 0 {
                kept.drop_last()
            } else {
                kept
            }
        } else {
            kept.push(parts.last())
        }
    }
}

/// `text` with one more component. A component that begins with a prefix
/// replaces what was there. The root replaces what stands behind the
/// prefix of `text`. Any other component is appended behind a separator,
/// which is left out where `text` is empty, ends with a separator or is a
/// drive and nothing more.
pub open spec fn pushed(text: Seq<u8>, part: Seq<u8>, platform: Platform) -> Seq<u8> {
    if has_drive(part, platform) || has_share(part, platform) {
        part
    } else if part == root_dir() {
        text.take(prefix_len(text, platform)) + seq![platform.main_sep()]
    } else if text.len() == 0 || platform.is_sep(text.last()) || is_drive(text, platform) {
        text + part
    } else {
        text + seq![platform.main_sep()] + part
    }
}

/// The path text that spells `parts`.
pub open spec fn rendered(parts: Seq<Seq<u8>>, platform: Platform) -> Seq<u8>
    decreases parts.len(),
{
    if parts.len() == 0 {
        Seq::empty()
    } else {
        pushed(rendered(parts.drop_last(), platform), parts.last(), platform)
    }
}

/// The collapsed form of `src`, as text.
pub open spec fn absolute(src: Seq<u8>, platform: Platform) -> Seq<u8> {
    rendered(collapsed(components(src, platform)), platform)
}

/// `rel` seen from `base`. Where `rel` begins with a prefix it is the
/// answer. Where it begins at the root it replaces what stands behind the
/// prefix of `base`. Else it is appended to `base` behind a separator,
/// which is left out where `base` is empty, ends with a separator or is a
/// drive and nothing more.
pub open spec fn joined(base: Seq<u8>, rel: Seq<u8>, platform: Platform) -> Seq<u8> {
    if has_drive(rel, platform) || has_share(rel, platform) {
        rel
    } else if is_rooted(rel, platform) {
        base.take(prefix_len(base, platform)) + rel
    } else if base.len() == 0 || platform.is_sep(base.last()) || is_drive(base, platform) {
        base + rel
    } else {
        base + seq![platform.main_sep()] + rel
    }
}

/// The directory that holds `path`: its components without the last one.
/// Empty where `path` has no component or ends with the root or with its
/// prefix.
pub open spec fn parent(path: Seq<u8>, platform: Platform) -> Seq<u8> {
    let parts = components(path, platform);
    if parts.len() == 0 || parts.last() == root_dir() || (parts.len() == 1 && (has_drive(
        path,
        platform,
    ) || has_share(path, platform))) {
        Seq::empty()
    } else {
        rendered(parts.drop_last(), platform)
    }
}

/// Rewrites the separators of `src` for `platform`.
pub fn path_sanitise(src: &[u8], platform: Platform) -> (out: Vec<u8>)
    ensures
        out@ == sanitised(src@, platform),
{
    let alt = platform.alt_separator();
    let main = platform.main_separator();
    let mut out: Vec<u8> = Vec::new();
    let mut i: usize = 0;
    while i < src.len()
        invariant
            i <= src.len(),
            alt == platform.alt_sep(),
            main == platform.main_sep(),
            out@ == sanitised(src@, platform).subrange(0, i as int),
        decreases src.len() - i,
    {
        let b = src[i];
        if b == alt {
            out.push(main);
        } else {
            out.push(b);
        }
        i += 1;
        assert(out@ =~= sanitised(src@, platform).subrange(0, i as int));
    }
    assert(out@ =~= sanitised(src@, platform));
    out
}

/// Whether `b` is an ASCII letter.
fn is_letter_byte(b: u8) -> (r: bool)
    ensures
        r == is_letter(b),
{
    (0x41 <= b && b <= 0x5a) || (0x61 <= b && b <= 0x7a)
}

/// The position of the first separator at or behind `from`; the length
/// where there is none.
fn name_end(s: &[u8], from: usize, platform: Platform) -> (at: usize)
    requires
        from <= s.len(),
    ensures
        from <= at <= s.len(),
        at - from == name_len(s@.skip(from as int), platform),
{
    let mut at: usize = from;
    while at < s.len() && !platform.is_separator(s[at])
        invariant
            from <= at <= s.len(),
            name_len(s@.skip(from as int), platform) == (at - from) + name_len(
                s@.skip(at as int),
                platform,
            ),
        decreases s.len() - at,
    {
        assert(s@.skip(at as int).skip(1) =~= s@.skip(at + 1));
        at += 1;
    }
    at
}

/// How many bytes the prefix of `src` takes.
pub fn prefix_length(src: &[u8], platform: Platform) -> (n: usize)
    ensures
        n == prefix_len(src@, platform),
        n <= src.len(),
        (n > 0) == (has_drive(src@, platform) || has_share(src@, platform)),
{
    if platform != Platform::Windows || src.len() < 2 {
        0
    } else if is_letter_byte(src[0]) && src[1] == COLON {
        2
    } else if platform.is_separator(src[0]) && platform.is_separator(src[1]) {
        let server = name_end(src, 2, platform);
        if server < src.len() {
            name_end(src, server + 1, platform)
        } else {
            server
        }
    } else {
        0
    }
}

/// Splits `src` into its components.
pub fn path_components(src: &[u8], platform: Platform) -> (out: Vec<Vec<u8>>)
    ensures
        views(out@) == components(src@, platform),
{
    let n = prefix_length(src, platform);
    if n == 0 {
        return body_components(src, platform);
    }
    let mut out: Vec<Vec<u8>> = Vec::new();
    out.push(bytes_copy(src, 0, n));
    assert(src@.subrange(0, n as int) =~= src@.take(n as int));
    if platform.is_separator(src[0]) && n == src.len() {
        out.push(Vec::new());
        assert(views(out@) =~= seq![src@.take(n as int), root_dir()]);
    } else {
        let rest = vstd::slice::slice_subrange(src, n, src.len());
        assert(rest@ =~= src@.skip(n as int));
        let mut tail = body_components(rest, platform);
        let ghost head = views(out@);
        let ghost behind = views(tail@);
        out.append(&mut tail);
        assert(views(out@) =~= head + behind);
        assert(head =~= seq![src@.take(n as int)]);
    }
    out
}

/// Splits text without a prefix into its components.
fn body_components(src: &[u8], platform: Platform) -> (out: Vec<Vec<u8>>)
    ensures
        views(out@) == body(src@, platform),
{
    let mut out: Vec<Vec<u8>> = Vec::new();
    if src.len() > 0 && platform.is_separator(src[0]) {
        out.push(Vec::new());
    }
    let ghost lead = views(out@);
    let mut piece: Vec<u8> = Vec::new();
    let mut first: bool = true;
    let ghost done: Seq<Seq<u8>> = Seq::empty();
    let mut i: usize = 0;
    assert(src@.subrange(0, 0) =~= Seq::<u8>::empty());
    assert(pieces(Seq::<u8>::empty(), platform) =~= done.push(piece@));
    assert(views(out@) =~= lead + named(done));
    while i < src.len()
        invariant
            i <= src.len(),
            lead == if is_rooted(src@, platform) { seq![root_dir()] } else { Seq::<Seq<u8>>::empty() },
            pieces(src@.subrange(0, i as int), platform) == done.push(piece@),
            first == (done.len() == 0),
            views(out@) == lead + named(done),
        decreases src.len() - i,
    {
        let b = src[i];
        assert(src@.subrange(0, i + 1).drop_last() =~= src@.subrange(0, i as int));
        assert(src@.subrange(0, i + 1).last() == b);
        if platform.is_separator(b) {
            let is_dot = piece.len() == 1 && piece[0] == DOT;
            assert(is_dot == (piece@ == cur_dir())) by {
                if is_dot {
                    assert(piece@ =~= cur_dir());
                }
            }
            proof {
                assert(done.push(piece@).drop_last() =~= done);
                assert(pieces(src@.subrange(0, i + 1), platform) =~= done.push(piece@).push(
                    Seq::<u8>::empty(),
                ));
            }
            if piece.len() > 0 && (first || !is_dot) {
                let ghost before = views(out@);
                out.push(piece);
                assert(views(out@) =~= before.push(piece@));
                assert(views(out@) =~= lead + named(done.push(piece@)));
            } else {
                assert(views(out@) =~= lead + named(done.push(piece@)));
            }
            proof {
                done = done.push(piece@);
            }
            piece = Vec::new();
            first = false;
        } else {
            let ghost old_piece = piece@;
            piece.push(b);
            proof {
                assert(done.push(old_piece).drop_last() =~= done);
                assert(pieces(src@.subrange(0, i + 1), platform) =~= done.push(piece@));
            }
        }
        i += 1;
    }
    assert(src@.subrange(0, i as int) =~= src@);
    let is_dot = piece.len() == 1 && piece[0] == DOT;
    assert(is_dot == (piece@ == cur_dir())) by {
        if is_dot {
            assert(piece@ =~= cur_dir());
        }
    }
    assert(done.push(piece@).drop_last() =~= done);
    if piece.len() > 0 && (first || !is_dot) {
        let ghost before = views(out@);
        out.push(piece);
        assert(views(out@) =~= before.push(piece@));
    }
    assert(views(out@) =~= lead + named(pieces(src@, platform)));
    out
}

/// Whether `part` is the component `..`.
pub fn is_parent_dir(part: &[u8]) -> (r: bool)
    ensures
        r == (part@ == parent_dir()),
{
    let r = part.len() == 2 && part[0] == DOT && part[1] == DOT;
    if r {
        assert(part@ =~= parent_dir());
    }
    r
}

/// Walks `parts` from left to right and lets each `..` drop the component
/// kept last; every other component is kept as it is.
pub fn path_collapse(parts: Vec<Vec<u8>>) -> (out: Vec<Vec<u8>>)
    ensures
        views(out@) == collapsed(views(parts@)),
{
    let mut out: Vec<Vec<u8>> = Vec::new();
    let mut i: usize = 0;
    assert(views(parts@).subrange(0, 0) =~= Seq::<Seq<u8>>::empty());
    assert(views(out@) =~= Seq::<Seq<u8>>::empty());
    while i < parts.len()
        invariant
            i <= parts.len(),
            views(out@) == collapsed(views(parts@).subrange(0, i as int)),
        decreases parts.len() - i,
    {
        let ghost before = views(out@);
        let ghost upto = views(parts@).subrange(0, i + 1);
        assert(upto.drop_last() =~= views(parts@).subrange(0, i as int));
        assert(upto.last() == parts@[i as int]@);
        if is_parent_dir(parts[i].as_slice()) {
            out.pop();
            assert(views(out@) =~= if before.len() > 0 {
                before.drop_last()
            } else {
                before
            });
        } else {
            out.push(parts[i].clone());
            assert(views(out@) =~= before.push(parts@[i as int]@));
        }
        i += 1;
    }
    assert(views(parts@).subrange(0, i as int) =~= views(parts@));
    out
}

/// Spells `parts` as path text for `platform`.
pub fn path_render(parts: &Vec<Vec<u8>>, platform: Platform) -> (out: Vec<u8>)
    ensures
        out@ == rendered(views(parts@), platform),
{
    let main = platform.main_separator();
    let mut out: Vec<u8> = Vec::new();
    let mut i: usize = 0;
    assert(views(parts@).subrange(0, 0) =~= Seq::<Seq<u8>>::empty());
    while i < parts.len()
        invariant
            i <= parts.len(),
            main == platform.main_sep(),
            out@ == rendered(views(parts@).subrange(0, i as int), platform),
        decreases parts.len() - i,
    {
        let ghost before = out@;
        let ghost upto = views(parts@).subrange(0, i + 1);
        assert(upto.drop_last() =~= views(parts@).subrange(0, i as int));
        assert(upto.last() == parts@[i as int]@);
        let part = &parts[i];
        if prefix_length(part.as_slice(), platform) > 0 {
            out = part.clone();
        } else if part.len() == 0 {
            assert(part@ =~= root_dir());
            let keep = prefix_length(out.as_slice(), platform);
            out.truncate(keep);
            out.push(main);
            assert(out@ =~= before.take(keep as int) + seq![main]);
        } else {
            let drive = out.len() == 2 && prefix_length(out.as_slice(), platform) == 2
                && !platform.is_separator(out[0]);
            assert(drive == is_drive(before, platform));
            if out.len() > 0 && !platform.is_separator(out[out.len() - 1]) && !drive {
                out.push(main);
            }
            let ghost mid = out@;
            let mut k: usize = 0;
            while k < part.len()
                invariant
                    k <= part.len(),
                    out@ == mid + part@.subrange(0, k as int),
                decreases part.len() - k,
            {
                out.push(part[k]);
                k += 1;
                assert(out@ =~= mid + part@.subrange(0, k as int));
            }
            assert(part@.subrange(0, k as int) =~= part@);
            assert(part@ !== root_dir());
            assert(out@ =~= pushed(before, part@, platform));
        }
        i += 1;
    }
    assert(views(parts@).subrange(0, i as int) =~= views(parts@));
    out
}

/// Collapses the `..` components of `src` and spells the result for
/// `platform`. Nothing on disk is consulted: a `..` undoes the component
/// before it whether or not that component is a link.
pub fn path_absolute(src: &[u8], platform: Platform) -> (out: Vec<u8>)
    ensures
        out@ == absolute(src@, platform),
{
    let parts = path_components(src, platform);
    let kept = path_collapse(parts);
    path_render(&kept, platform)
}

/// Spells `rel` as seen from the directory `base`.
pub fn path_join(base: &[u8], rel: &[u8], platform: Platform) -> (out: Vec<u8>)
    ensures
        out@ == joined(base@, rel@, platform),
{
    let mut out: Vec<u8> = Vec::new();
    if prefix_length(rel, platform) == 0 {
        let rooted = rel.len() > 0 && platform.is_separator(rel[0]);
        let keep = if rooted {
            prefix_length(base, platform)
        } else {
            base.len()
        };
        let mut i: usize = 0;
        while i < keep
            invariant
                i <= keep <= base.len(),
                out@ == base@.subrange(0, i as int),
            decreases keep - i,
        {
            out.push(base[i]);
            i += 1;
            assert(out@ =~= base@.subrange(0, i as int));
        }
        assert(base@.subrange(0, keep as int) =~= base@.take(keep as int));
        if !rooted {
            assert(base@.take(keep as int) =~= base@);
            let drive = base.len() == 2 && prefix_length(base, platform) == 2
                && !platform.is_separator(base[0]);
            assert(drive == is_drive(base@, platform));
            if base.len() > 0 && !platform.is_separator(base[base.len() - 1]) && !drive {
                out.push(platform.main_separator());
            }
        }
    }
    let ghost head = out@;
    let mut k: usize = 0;
    while k < rel.len()
        invariant
            k <= rel.len(),
            out@ == head + rel@.subrange(0, k as int),
        decreases rel.len() - k,
    {
        out.push(rel[k]);
        k += 1;
        assert(out@ =~= head + rel@.subrange(0, k as int));
    }
    assert(rel@.subrange(0, k as int) =~= rel@);
    assert(out@ =~= joined(base@, rel@, platform));
    out
}

/// The directory that holds `path`, or the empty path where there is none.
pub fn path_parent(path: &[u8], platform: Platform) -> (out: Vec<u8>)
    ensures
        out@ == parent(path@, platform),
{
    let mut parts = path_components(path, platform);
    let ghost all = views(parts@);
    if parts.len() == 0 || parts[parts.len() - 1].len() == 0 || (parts.len() == 1
        && prefix_length(path, platform) > 0) {
        if parts.len() > 0 && parts[parts.len() - 1].len() == 0 {
            assert(all.last() =~= root_dir());
        }
        return Vec::new();
    }
    parts.pop();
    assert(views(parts@) =~= all.drop_last());
    path_render(&parts, platform)
}

/// A `..` takes away exactly the component kept last, and nothing where
/// none is kept; any other component is kept behind those kept so far.
pub proof fn lemma_collapse_step(parts: Seq<Seq<u8>>, part: Seq<u8>)
    ensures
        part == parent_dir() && collapsed(parts).len() > 0 ==> collapsed(parts.push(part))
            == collapsed(parts).drop_last(),
        part == parent_dir() && collapsed(parts).len() == 0 ==> collapsed(parts.push(part))
            == collapsed(parts),
        part != parent_dir() ==> collapsed(parts.push(part)) == collapsed(parts).push(part),
{
    assert(parts.push(part).drop_last() =~= parts);
}

/// No `..` is left among the collapsed components.
pub proof fn lemma_collapsed_has_no_parent_dir(parts: Seq<Seq<u8>>)
    ensures
        forall|i: int| 0 <= i < collapsed(parts).len() ==> collapsed(parts)[i] != parent_dir(),
    decreases parts.len(),
{
    if parts.len() > 0 {
        lemma_collapsed_has_no_parent_dir(parts.drop_last());
        let kept = collapsed(parts.drop_last());
        assert forall|i: int| 0 <= i < collapsed(parts).len() implies collapsed(parts)[i]
            != parent_dir() by {
            if parts.last() == parent_dir() {
                if kept.len() > 0 {
                    assert(collapsed(parts)[i] == kept[i]);
                }
            } else if i < kept.len() {
                assert(collapsed(parts)[i] == kept[i]);
            }
        }
    }
}

/// Components without a `..` among them are left as they are.
pub proof fn lemma_collapse_without_parent_dir(parts: Seq<Seq<u8>>)
    requires
        forall|i: int| 0 <= i < parts.len() ==> parts[i] != parent_dir(),
    ensures
        collapsed(parts) == parts,
    decreases parts.len(),
{
    if parts.len() > 0 {
        lemma_collapse_without_parent_dir(parts.drop_last());
        assert(parts.drop_last().push(parts.last()) =~= parts);
    }
}

/// Collapsing twice gives what collapsing once gives.
pub proof fn lemma_collapse_idempotent(parts: Seq<Seq<u8>>)
    ensures
        collapsed(collapsed(parts)) == collapsed(parts),
{
    lemma_collapsed_has_no_parent_dir(parts);
    lemma_collapse_without_parent_dir(collapsed(parts));
}

/// Whether no byte of `part` is a separator.
pub open spec fn separator_free(part: Seq<u8>, platform: Platform) -> bool {
    forall|k: int| 0 <= k < part.len() ==> !platform.is_sep(#[trigger] part[k])
}

/// Whether `part` is a plain name: it holds no separator and does not
/// begin with a drive.
pub open spec fn is_plain(part: Seq<u8>, platform: Platform) -> bool {
    separator_free(part, platform) && !has_drive(part, platform)
}

/// Whether `src` has no prefix and none of its pieces begins with a drive.
/// That is so for every path on Unix.
pub open spec fn prefix_free(src: Seq<u8>, platform: Platform) -> bool {
    &&& !has_drive(src, platform)
    &&& !has_share(src, platform)
    &&& forall|j: int|
        0 <= j < pieces(src, platform).len() ==> !has_drive(
            #[trigger] pieces(src, platform)[j],
            platform,
        )
}

/// Whether `parts` can be the components of a path without a prefix: every
/// component is a plain name, and behind the first none is the root or a
/// `.`.
pub open spec fn well_formed(parts: Seq<Seq<u8>>, platform: Platform) -> bool {
    forall|i: int|
        0 <= i < parts.len() ==> is_plain(#[trigger] parts[i], platform) && (i > 0 ==> parts[i].len()
            > 0 && parts[i] != cur_dir())
}

/// Text behind which plain bytes are written has the same pieces, but for
/// the last, which is longer by those bytes.
proof fn lemma_pieces_extended(text: Seq<u8>, part: Seq<u8>, platform: Platform)
    requires
        separator_free(part, platform),
    ensures
        pieces(text + part, platform) == pieces(text, platform).drop_last().push(
            pieces(text, platform).last() + part,
        ),
        pieces(text, platform).len() > 0,
    decreases part.len(),
{
    lemma_pieces_not_empty(text, platform);
    let ps = pieces(text, platform);
    if part.len() == 0 {
        assert(text + part =~= text);
        assert(ps.last() + part =~= ps.last());
        assert(ps.drop_last().push(ps.last()) =~= ps);
    } else {
        let init = part.drop_last();
        assert(separator_free(init, platform)) by {
            assert forall|k: int| 0 <= k < init.len() implies !platform.is_sep(
                #[trigger] init[k],
            ) by {
                assert(init[k] == part[k]);
            }
        }
        lemma_pieces_extended(text, init, platform);
        assert((text + part).drop_last() =~= text + init);
        assert((text + part).last() == part[part.len() - 1]);
        let before = pieces(text + init, platform);
        assert(before.drop_last() =~= ps.drop_last());
        assert(before.last().push(part.last()) =~= ps.last() + part);
    }
}

/// Text always has a piece.
proof fn lemma_pieces_not_empty(text: Seq<u8>, platform: Platform)
    ensures
        pieces(text, platform).len() > 0,
    decreases text.len(),
{
    if text.len() > 0 {
        lemma_pieces_not_empty(text.drop_last(), platform);
    }
}

/// The pieces of text hold no separator, and the first piece is empty
/// exactly where the text is empty or begins with a separator.
proof fn lemma_pieces_plain(text: Seq<u8>, platform: Platform)
    ensures
        pieces(text, platform).len() > 0,
        forall|j: int|
            0 <= j < pieces(text, platform).len() ==> separator_free(
                #[trigger] pieces(text, platform)[j],
                platform,
            ),
        (pieces(text, platform)[0].len() == 0) == (text.len() == 0 || platform.is_sep(text[0])),
        text.len() > 0 && platform.is_sep(text[0]) ==> pieces(text, platform).len() >= 2,
    decreases text.len(),
{
    if text.len() > 0 {
        let init = text.drop_last();
        lemma_pieces_plain(init, platform);
        let before = pieces(init, platform);
        let ps = pieces(text, platform);
        if init.len() == 0 {
            assert(text[0] == text.last());
        }
        if platform.is_sep(text.last()) {
            assert forall|j: int| 0 <= j < ps.len() implies separator_free(#[trigger] ps[j], platform) by {
                if j < before.len() {
                    assert(ps[j] == before[j]);
                }
            }
            if init.len() > 0 {
                assert(init[0] == text[0]);
            }
        } else {
            assert forall|j: int| 0 <= j < ps.len() implies separator_free(#[trigger] ps[j], platform) by {
                if j < before.len() - 1 {
                    assert(ps[j] == before[j]);
                } else {
                    assert forall|k: int| 0 <= k < ps[j].len() implies !platform.is_sep(
                        #[trigger] ps[j][k],
                    ) by {
                        if k < before.last().len() {
                            assert(ps[j][k] == before.last()[k]);
                        }
                    }
                }
            }
            if init.len() > 0 {
                assert(init[0] == text[0]);
            }
        }
    }
}

/// The pieces that name a component are not empty and hold no separator,
/// and only one that was the first piece can be a `.`, which is then the
/// first of them.
proof fn lemma_named_well_formed(ps: Seq<Seq<u8>>, platform: Platform)
    requires
        forall|j: int| 0 <= j < ps.len() ==> is_plain(#[trigger] ps[j], platform),
    ensures
        named(ps).len() <= ps.len(),
        forall|i: int|
            0 <= i < named(ps).len() ==> is_plain(#[trigger] named(ps)[i], platform) && named(
                ps,
            )[i].len() > 0 && (named(ps)[i] == cur_dir() ==> i == 0 && ps[0].len() > 0),
        ps.len() > 0 && ps[0].len() == 0 ==> forall|i: int|
            0 <= i < named(ps).len() ==> #[trigger] named(ps)[i] != cur_dir(),
    decreases ps.len(),
{
    if ps.len() > 0 {
        let init = ps.drop_last();
        assert forall|j: int| 0 <= j < init.len() implies is_plain(#[trigger] init[j], platform) by {
            assert(init[j] == ps[j]);
        }
        lemma_named_well_formed(init, platform);
        if init.len() > 0 {
            assert(init[0] == ps[0]);
        }
        assert forall|i: int| 0 <= i < named(ps).len() implies is_plain(
            #[trigger] named(ps)[i],
            platform,
        ) && named(ps)[i].len() > 0 && (named(ps)[i] == cur_dir() ==> i == 0 && ps[0].len()
            > 0) by {
            if i < named(init).len() {
                assert(named(ps)[i] == named(init)[i]);
            } else {
                assert(named(ps)[i] == ps.last());
            }
        }
        if ps[0].len() == 0 {
            assert forall|i: int| 0 <= i < named(ps).len() implies #[trigger] named(ps)[i]
                != cur_dir() by {
                if i < named(init).len() {
                    assert(named(ps)[i] == named(init)[i]);
                } else {
                    assert(named(ps)[i] == ps.last());
                }
            }
        }
    }
}

/// The components of text without a prefix are well formed.
pub proof fn lemma_components_well_formed(src: Seq<u8>, platform: Platform)
    requires
        prefix_free(src, platform),
    ensures
        well_formed(components(src, platform), platform),
{
    lemma_pieces_plain(src, platform);
    let ps = pieces(src, platform);
    assert forall|j: int| 0 <= j < ps.len() implies is_plain(#[trigger] ps[j], platform) by {
        assert(separator_free(ps[j], platform));
        assert(!has_drive(ps[j], platform));
    }
    lemma_named_well_formed(ps, platform);
    let parts = components(src, platform);
    assert(parts == body(src, platform));
    assert forall|i: int| 0 <= i < parts.len() implies is_plain(#[trigger] parts[i], platform) && (i
        > 0 ==> parts[i].len() > 0 && parts[i] != cur_dir()) by {
        if is_rooted(src, platform) {
            if i > 0 {
                assert(parts[i] == named(ps)[i - 1]);
            } else {
                assert(parts[i] =~= root_dir());
            }
        } else {
            assert(parts[i] == named(ps)[i]);
        }
    }
}

/// Collapsing leaves well-formed components well formed.
pub proof fn lemma_collapsed_well_formed(parts: Seq<Seq<u8>>, platform: Platform)
    requires
        well_formed(parts, platform),
    ensures
        well_formed(collapsed(parts), platform),
        collapsed(parts).len() <= parts.len(),
    decreases parts.len(),
{
    if parts.len() > 0 {
        let init = parts.drop_last();
        assert(well_formed(init, platform)) by {
            assert forall|i: int| 0 <= i < init.len() implies is_plain(
                #[trigger] init[i],
                platform,
            ) && (i > 0 ==> init[i].len() > 0 && init[i] != cur_dir()) by {
                assert(init[i] == parts[i]);
            }
        }
        lemma_collapsed_well_formed(init, platform);
        let kept = collapsed(init);
        let out = collapsed(parts);
        assert forall|i: int| 0 <= i < out.len() implies is_plain(#[trigger] out[i], platform) && (i
            > 0 ==> out[i].len() > 0 && out[i] != cur_dir()) by {
            if i < kept.len() {
                assert(out[i] == kept[i]);
            } else {
                assert(out[i] == parts[parts.len() - 1]);
            }
        }
    }
}

/// Pieces that all name a component are all kept.
proof fn lemma_named_all(ps: Seq<Seq<u8>>)
    requires
        forall|j: int| 0 <= j < ps.len() ==> names_component(#[trigger] ps[j], j),
    ensures
        named(ps) == ps,
    decreases ps.len(),
{
    if ps.len() > 0 {
        let init = ps.drop_last();
        assert forall|j: int| 0 <= j < init.len() implies names_component(#[trigger] init[j], j) by {
            assert(init[j] == ps[j]);
        }
        lemma_named_all(init);
        assert(init.push(ps.last()) =~= ps);
    } else {
        assert(named(ps) =~= ps);
    }
}

/// Where the first piece is empty and all others name a component, the
/// others are what is kept.
proof fn lemma_named_behind_root(ps: Seq<Seq<u8>>)
    requires
        ps.len() > 0,
        ps[0].len() == 0,
        forall|j: int| 1 <= j < ps.len() ==> names_component(#[trigger] ps[j], j),
    ensures
        named(ps) == ps.skip(1),
    decreases ps.len(),
{
    if ps.len() == 1 {
        assert(named(ps.drop_last()) =~= Seq::<Seq<u8>>::empty());
        assert(named(ps) =~= ps.skip(1));
    } else {
        let init = ps.drop_last();
        assert(init[0] == ps[0]);
        assert forall|j: int| 1 <= j < init.len() implies names_component(#[trigger] init[j], j) by {
            assert(init[j] == ps[j]);
        }
        lemma_named_behind_root(init);
        assert(init.skip(1).push(ps.last()) =~= ps.skip(1));
    }
}

/// How the text of well-formed components falls into pieces: into the
/// components themselves, with an empty piece in place of the root, and a
/// second empty piece where the root stands alone.
proof fn lemma_rendered_pieces(parts: Seq<Seq<u8>>, platform: Platform)
    requires
        well_formed(parts, platform),
    ensures
        !has_drive(rendered(parts, platform), platform),
        !has_share(rendered(parts, platform), platform),
        ({
            let text = rendered(parts, platform);
            let ps = pieces(text, platform);
            if parts.len() == 0 {
                text.len() == 0
            } else if parts[0].len() == 0 {
                &&& text.len() > 0
                &&& platform.is_sep(text[0])
                &&& platform.is_sep(text.last()) == (parts.len() == 1)
                &&& parts.len() == 1 ==> text.len() == 1
                &&& text.len() >= 2 ==> !platform.is_sep(text[1])
                &&& ps == if parts.len() == 1 {
                    seq![Seq::<u8>::empty(), Seq::<u8>::empty()]
                } else {
                    seq![Seq::<u8>::empty()] + parts.skip(1)
                }
            } else {
                &&& text.len() > 0
                &&& !platform.is_sep(text[0])
                &&& !platform.is_sep(text.last())
                &&& ps == parts
            }
        }),
    decreases parts.len(),
{
    let none = Seq::<u8>::empty();
    let sep = platform.main_sep();
    if parts.len() > 0 {
        let init = parts.drop_last();
        let last = parts.last();
        assert(well_formed(init, platform)) by {
            assert forall|i: int| 0 <= i < init.len() implies is_plain(
                #[trigger] init[i],
                platform,
            ) && (i > 0 ==> init[i].len() > 0 && init[i] != cur_dir()) by {
                assert(init[i] == parts[i]);
            }
        }
        lemma_rendered_pieces(init, platform);
        let before = rendered(init, platform);
        let text = rendered(parts, platform);
        assert(is_plain(last, platform));
        assert(!has_share(last, platform)) by {
            if last.len() > 0 {
                assert(!platform.is_sep(last[0]));
            }
        }
        assert(!is_drive(before, platform));
        if init.len() == 0 {
            assert(parts[0] == last);
            if last.len() == 0 {
                assert(last =~= root_dir());
                assert(before.take(0) + seq![sep] =~= seq![sep]);
                assert(text == seq![sep]);
                assert(text.drop_last() =~= none);
                assert(pieces(none, platform) =~= seq![none]);
                assert(pieces(text, platform) =~= seq![none, none]);
            } else {
                assert(text =~= none + last);
                lemma_pieces_extended(none, last, platform);
                assert(pieces(none, platform) =~= seq![none]);
                assert(none + last =~= last);
                assert(pieces(text, platform) =~= seq![last]);
                assert(seq![last] =~= parts);
                assert(text[0] == last[0]);
                assert(text.last() == last[last.len() - 1]);
            }
        } else {
            assert(init[0] == parts[0]);
            assert(last.len() > 0);
            assert(last !== root_dir());
            if platform.is_sep(before.last()) {
                assert(init.len() == 1);
                assert(text == before + last);
                assert(text[1] == last[0]);
                assert(!platform.is_sep(last[0]));
                lemma_pieces_extended(before, last, platform);
                assert(none + last =~= last);
                assert(pieces(text, platform) =~= seq![none, last]);
                assert(seq![none] + parts.skip(1) =~= seq![none, last]);
                assert(text[0] == before[0]);
                assert(text.last() == last[last.len() - 1]);
            } else {
                let mid = before + seq![sep];
                assert(text =~= mid + last);
                assert(mid.drop_last() =~= before);
                assert(mid.last() == sep);
                assert(pieces(mid, platform) == pieces(before, platform).push(none));
                lemma_pieces_extended(mid, last, platform);
                assert(none + last =~= last);
                assert(pieces(mid, platform).drop_last() =~= pieces(before, platform));
                assert(pieces(text, platform) =~= pieces(before, platform).push(last));
                assert(text[0] == before[0]);
                assert(text.last() == last[last.len() - 1]);
                if before.len() >= 2 {
                    assert(text[1] == before[1]);
                } else {
                    assert(text[1] == sep);
                }
                if parts[0].len() == 0 {
                    assert((seq![none] + init.skip(1)).push(last) =~= seq![none] + parts.skip(1));
                } else {
                    assert(init.push(last) =~= parts);
                }
            }
        }
    }
}

/// Well-formed components are the components of their own text.
pub proof fn lemma_components_of_rendered(parts: Seq<Seq<u8>>, platform: Platform)
    requires
        well_formed(parts, platform),
    ensures
        components(rendered(parts, platform), platform) == parts,
{
    lemma_rendered_pieces(parts, platform);
    let text = rendered(parts, platform);
    let ps = pieces(text, platform);
    let none = Seq::<u8>::empty();
    assert(components(text, platform) == body(text, platform));
    if parts.len() == 0 {
        assert(text =~= none);
        assert(ps =~= seq![none]);
        assert(ps.drop_last() =~= Seq::<Seq<u8>>::empty());
        assert(named(ps.drop_last()) =~= Seq::<Seq<u8>>::empty());
        assert(ps.last() == none);
        assert(named(ps) =~= Seq::<Seq<u8>>::empty());
        assert(components(text, platform) =~= parts);
    } else if parts[0].len() == 0 {
        if parts.len() > 1 {
            assert forall|j: int| 1 <= j < ps.len() implies names_component(#[trigger] ps[j], j) by {
                assert(ps[j] == parts[j]);
            }
        }
        if parts.len() == 1 {
            assert(ps.drop_last() =~= seq![none]);
            assert(ps.drop_last().drop_last() =~= Seq::<Seq<u8>>::empty());
            assert(named(ps.drop_last().drop_last()) =~= Seq::<Seq<u8>>::empty());
            assert(named(ps.drop_last()) =~= Seq::<Seq<u8>>::empty());
            assert(named(ps) =~= Seq::<Seq<u8>>::empty());
            assert(parts[0] =~= root_dir());
            assert(seq![root_dir()] + named(ps) =~= parts);
            assert(body(text, platform) =~= parts);
        } else {
            lemma_named_behind_root(ps);
            assert(ps.skip(1) =~= parts.skip(1));
            assert(parts[0] =~= root_dir());
            assert(seq![root_dir()] + parts.skip(1) =~= parts);
        }
    } else {
        assert forall|j: int| 0 <= j < ps.len() implies names_component(#[trigger] ps[j], j) by {
            assert(ps[j] == parts[j]);
        }
        lemma_named_all(ps);
    }
}

/// A path on Unix has no prefix.
pub proof fn lemma_unix_prefix_free(src: Seq<u8>)
    ensures
        prefix_free(src, Platform::Unix),
{
}

/// The collapsed form of a path without a prefix is its own collapsed form,
/// and none of its components is a `..`.
pub proof fn lemma_absolute_idempotent(src: Seq<u8>, platform: Platform)
    requires
        prefix_free(src, platform),
    ensures
        absolute(absolute(src, platform), platform) == absolute(src, platform),
        components(absolute(src, platform), platform) == collapsed(components(src, platform)),
        forall|i: int|
            0 <= i < components(absolute(src, platform), platform).len() ==> components(
                absolute(src, platform),
                platform,
            )[i] != parent_dir(),
{
    let parts = collapsed(components(src, platform));
    lemma_components_well_formed(src, platform);
    lemma_collapsed_well_formed(components(src, platform), platform);
    lemma_components_of_rendered(parts, platform);
    lemma_collapse_idempotent(components(src, platform));
    lemma_collapsed_has_no_parent_dir(components(src, platform));
}

} // verus!
