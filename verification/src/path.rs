//! Paths as byte strings, read by the rules of Unix: components are
//! separated by `/`, and nothing is looked up in a file system.
use vstd::prelude::*;
use vstd::slice::slice_subrange;
use crate::format::EXTENSION;

verus! {

/// The byte that separates the components of a path: `/`.
pub const SEPARATOR: u8 = 0x2f;

/// The byte `.`, which names the current directory and, doubled, its parent.
pub const DOT: u8 = 0x2e;

/// One component of a path.
#[derive(Debug)]
pub enum Component {
    /// The root directory, at the start of an absolute path.
    RootDir,
    /// The current directory, `.`, at the start of a relative path.
    CurDir,
    /// The parent directory, `..`.
    ParentDir,
    /// An ordinary name.
    Normal(Vec<u8>),
}

/// A `Component` with its name as a byte sequence.
pub enum ComponentView {
    RootDir,
    CurDir,
    ParentDir,
    Normal(Seq<u8>),
}

impl View for Component {
    type V = ComponentView;

    open spec fn view(&self) -> ComponentView {
        match *self {
            Component::RootDir => ComponentView::RootDir,
            Component::CurDir => ComponentView::CurDir,
            Component::ParentDir => ComponentView::ParentDir,
            Component::Normal(name) => ComponentView::Normal(name@),
        }
    }
}

/// The views of a row of components.
pub open spec fn components_view(cs: Seq<Component>) -> Seq<ComponentView> {
    Seq::new(cs.len(), |i: int| cs[i]@)
}

/// The views of a row of byte strings.
pub open spec fn names_view(names: Seq<Vec<u8>>) -> Seq<Seq<u8>> {
    Seq::new(names.len(), |i: int| names[i]@)
}

/// The pieces of `path` between its separators, empty ones included: one
/// more than there are separators.
pub open spec fn segments(path: Seq<u8>) -> Seq<Seq<u8>>
    decreases path.len(),
{
    if path.len() == 0 {
        seq![Seq::empty()]
    } else {
        let before = segments(path.drop_last());
        if path.last() == SEPARATOR {
            before.push(Seq::empty())
        } else {
            before.drop_last().push(before.last().push(path.last()))
        }
    }
}

/// The byte string `.`.
pub open spec fn dot() -> Seq<u8> {
    seq![DOT]
}

/// The byte string `..`.
pub open spec fn dot_dot() -> Seq<u8> {
    seq![DOT, DOT]
}

/// The component that a segment stands for, if any: an empty segment stands
/// for none, and `.` only where it is the first segment.
pub open spec fn segment_component(segment: Seq<u8>, first: bool) -> Seq<ComponentView> {
    if segment.len() == 0 {
        Seq::empty()
    } else if segment == dot() {
        if first {
            seq![ComponentView::CurDir]
        } else {
            Seq::empty()
        }
    } else if segment == dot_dot() {
        seq![ComponentView::ParentDir]
    } else {
        seq![ComponentView::Normal(segment)]
    }
}

/// The components that a row of segments stands for.
pub open spec fn segment_components(segs: Seq<Seq<u8>>) -> Seq<ComponentView>
    decreases segs.len(),
{
    if segs.len() == 0 {
        Seq::empty()
    } else {
        segment_components(segs.drop_last()) + segment_component(segs.last(), segs.len() == 1)
    }
}

/// Whether `path` starts at the root directory.
pub open spec fn is_absolute(path: Seq<u8>) -> bool {
    path.len() > 0 && path[0] == SEPARATOR
}

/// The components of `path`: the root directory if the path starts with a
/// separator, then what its segments stand for.
pub open spec fn components(path: Seq<u8>) -> Seq<ComponentView> {
    if is_absolute(path) {
        seq![ComponentView::RootDir] + segment_components(segments(path))
    } else {
        segment_components(segments(path))
    }
}

/// The row of components `stack`, simplified, followed by `c`: the root
/// directory replaces all before it; `.` changes nothing; `..` takes away an
/// ordinary name before it, stays at the root directory, and is otherwise
/// kept.
pub open spec fn normalize_step(stack: Seq<ComponentView>, c: ComponentView) -> Seq<ComponentView> {
    match c {
        ComponentView::RootDir => seq![ComponentView::RootDir],
        ComponentView::CurDir => stack,
        ComponentView::ParentDir => if stack.len() > 0 && stack.last() is Normal {
            stack.drop_last()
        } else if stack.len() > 0 && stack.last() is RootDir {
            stack
        } else {
            stack.push(ComponentView::ParentDir)
        },
        ComponentView::Normal(_) => stack.push(c),
    }
}

/// The simplest row of components that leads where `cs` leads, whatever the
/// file system holds but for symbolic links.
pub open spec fn normalize(cs: Seq<ComponentView>) -> Seq<ComponentView>
    decreases cs.len(),
{
    if cs.len() == 0 {
        Seq::empty()
    } else {
        normalize_step(normalize(cs.drop_last()), cs.last())
    }
}

fn copy_bytes(bytes: &[u8]) -> (copy: Vec<u8>)
    ensures
        copy@ == bytes@,
{
    let mut copy: Vec<u8> = Vec::new();
    copy.extend_from_slice(bytes);
    assert(copy@ =~= bytes@);
    copy
}

/// Cuts `path` at its separators.
pub fn split_segments(path: &[u8]) -> (segs: Vec<Vec<u8>>)
    ensures
        names_view(segs@) == segments(path@),
{
    let mut segs: Vec<Vec<u8>> = Vec::new();
    let mut start: usize = 0;
    let mut i: usize = 0;
    assert(path@.take(0) =~= Seq::<u8>::empty());
    assert(names_view(segs@).push(path@.subrange(0, 0)) =~= segments(path@.take(0)));
    while i < path.len()
        invariant
            start <= i <= path@.len(),
            names_view(segs@).push(path@.subrange(start as int, i as int)) == segments(
                path@.take(i as int),
            ),
        decreases path@.len() - i,
    {
        let ghost before = segments(path@.take(i as int));
        assert(path@.take(i + 1).drop_last() =~= path@.take(i as int));
        assert(path@.take(i + 1).last() == path@[i as int]);
        if path[i] == SEPARATOR {
            let ghost old_segs = segs@;
            let ghost piece = path@.subrange(start as int, i as int);
            segs.push(copy_bytes(slice_subrange(path, start, i)));
            start = i + 1;
            assert(names_view(segs@) =~= names_view(old_segs).push(piece));
            assert(path@.subrange(start as int, i + 1) =~= Seq::<u8>::empty());
        } else {
            assert(before.drop_last() =~= names_view(segs@));
            assert(before.last().push(path@[i as int]) =~= path@.subrange(start as int, i + 1));
        }
        i = i + 1;
    }
    let ghost old_segs = segs@;
    segs.push(copy_bytes(slice_subrange(path, start, i)));
    assert(path@.take(i as int) =~= path@);
    assert(names_view(segs@) =~= names_view(old_segs).push(path@.subrange(start as int, i as int)));
    segs
}

fn is_dot(segment: &Vec<u8>) -> (yes: bool)
    ensures
        yes == (segment@ == dot()),
{
    let yes = segment.len() == 1 && segment[0] == DOT;
    assert(yes ==> segment@ =~= dot());
    yes
}

fn is_dot_dot(segment: &Vec<u8>) -> (yes: bool)
    ensures
        yes == (segment@ == dot_dot()),
{
    let yes = segment.len() == 2 && segment[0] == DOT && segment[1] == DOT;
    assert(yes ==> segment@ =~= dot_dot());
    yes
}

/// Reads `path` as a row of components.
pub fn parse_components(path: &[u8]) -> (cs: Vec<Component>)
    ensures
        components_view(cs@) == components(path@),
{
    let segs = split_segments(path);
    let mut cs: Vec<Component> = Vec::new();
    if path.len() > 0 && path[0] == SEPARATOR {
        cs.push(Component::RootDir);
    }
    let ghost root = components_view(cs@);
    let ghost all = names_view(segs@);
    assert(root =~= if is_absolute(path@) {
        seq![ComponentView::RootDir]
    } else {
        Seq::empty()
    });
    let mut i: usize = 0;
    assert(root + segment_components(all.take(0)) =~= root);
    while i < segs.len()
        invariant
            i <= segs@.len(),
            all == names_view(segs@),
            components_view(cs@) == root + segment_components(all.take(i as int)),
        decreases segs@.len() - i,
    {
        let ghost before = components_view(cs@);
        assert(all.take(i + 1).drop_last() =~= all.take(i as int));
        assert(all.take(i + 1).last() == segs@[i as int]@);
        let segment = &segs[i];
        if segment.len() == 0 {
        } else if is_dot(segment) {
            if i == 0 {
                cs.push(Component::CurDir);
            }
        } else if is_dot_dot(segment) {
            cs.push(Component::ParentDir);
        } else {
            cs.push(Component::Normal(copy_bytes(segment.as_slice())));
        }
        assert(components_view(cs@) =~= before + segment_component(segment@, i == 0));
        i = i + 1;
    }
    assert(all.take(i as int) =~= all);
    cs
}

fn copy_component(c: &Component) -> (copy: Component)
    ensures
        copy@ == c@,
{
    match c {
        Component::RootDir => Component::RootDir,
        Component::CurDir => Component::CurDir,
        Component::ParentDir => Component::ParentDir,
        Component::Normal(name) => Component::Normal(copy_bytes(name.as_slice())),
    }
}

/// Simplifies a row of components, without a look at the file system.
pub fn normalize_components(cs: &Vec<Component>) -> (normalized: Vec<Component>)
    ensures
        components_view(normalized@) == normalize(components_view(cs@)),
{
    let mut normalized: Vec<Component> = Vec::new();
    let ghost all = components_view(cs@);
    let mut i: usize = 0;
    assert(all.take(0) =~= Seq::<ComponentView>::empty());
    assert(components_view(normalized@) =~= normalize(all.take(0)));
    while i < cs.len()
        invariant
            i <= cs@.len(),
            all == components_view(cs@),
            components_view(normalized@) == normalize(all.take(i as int)),
        decreases cs@.len() - i,
    {
        let ghost stack = components_view(normalized@);
        assert(all.take(i + 1).drop_last() =~= all.take(i as int));
        assert(all.take(i + 1).last() == cs@[i as int]@);
        match &cs[i] {
            Component::RootDir => {
                normalized.clear();
                normalized.push(Component::RootDir);
            },
            Component::CurDir => {},
            Component::ParentDir => {
                let n = normalized.len();
                if n == 0 {
                    normalized.push(Component::ParentDir);
                } else {
                    assert(stack.last() == normalized@[n - 1]@);
                    match &normalized[n - 1] {
                        Component::Normal(_) => {
                            normalized.pop();
                        },
                        Component::RootDir => {},
                        _ => {
                            normalized.push(Component::ParentDir);
                        },
                    }
                }
            },
            Component::Normal(_) => {
                normalized.push(copy_component(&cs[i]));
            },
        }
        assert(components_view(normalized@) =~= normalize_step(stack, cs@[i as int]@));
        i = i + 1;
    }
    assert(all.take(i as int) =~= all);
    normalized
}

/// Whether no component is the root directory or `..`.
pub open spec fn is_confined(cs: Seq<ComponentView>) -> bool {
    forall|i: int| 0 <= i < cs.len() ==> !(#[trigger] cs[i] is RootDir) && !(cs[i] is ParentDir)
}

/// The names of a row of ordinary names.
pub open spec fn names_of(cs: Seq<ComponentView>) -> Seq<Seq<u8>> {
    Seq::new(
        cs.len(),
        |i: int|
            match cs[i] {
                ComponentView::Normal(name) => name,
                _ => Seq::empty(),
            },
    )
}

/// The names that lead from a directory to the file that `name` names below
/// it; `None` where `name` holds `..` or starts at the root directory, and so
/// could lead out of that directory, or where it names no file at all.
pub open spec fn confined_path(name: Seq<u8>) -> Option<Seq<Seq<u8>>> {
    let cs = components(name);
    if is_confined(cs) && normalize(cs).len() > 0 {
        Some(names_of(normalize(cs)))
    } else {
        None
    }
}

/// Whether `name` can name a file in a directory: it is not empty, holds no
/// separator, and is neither `.` nor `..`.
pub open spec fn is_plain_name(name: Seq<u8>) -> bool {
    &&& name.len() > 0
    &&& !name.contains(SEPARATOR)
    &&& name != dot()
    &&& name != dot_dot()
}

fn check_confined(cs: &Vec<Component>) -> (yes: bool)
    ensures
        yes == is_confined(components_view(cs@)),
{
    let mut i: usize = 0;
    while i < cs.len()
        invariant
            i <= cs@.len(),
            is_confined(components_view(cs@).take(i as int)),
        decreases cs@.len() - i,
    {
        match &cs[i] {
            Component::RootDir => {
                assert(components_view(cs@)[i as int] is RootDir);
                return false;
            },
            Component::ParentDir => {
                assert(components_view(cs@)[i as int] is ParentDir);
                return false;
            },
            _ => {},
        }
        assert forall|j: int| 0 <= j < i + 1 implies !(#[trigger] components_view(cs@).take(
            i + 1,
        )[j] is RootDir) && !(components_view(cs@).take(i + 1)[j] is ParentDir) by {
            if j < i {
                assert(components_view(cs@).take(i as int)[j] == components_view(cs@).take(
                    i + 1,
                )[j]);
            }
        }
        i = i + 1;
    }
    assert(components_view(cs@).take(i as int) =~= components_view(cs@));
    true
}

/// Reads an entry name as the path of a file below a directory, and refuses
/// a name that could lead out of it.
pub fn confine(name: &[u8]) -> (path: Option<Vec<Vec<u8>>>)
    ensures
        match confined_path(name@) {
            Some(names) => path matches Some(p) && names_view(p@) == names,
            None => path is None,
        },
{
    let cs = parse_components(name);
    if !check_confined(&cs) {
        return None;
    }
    let normalized = normalize_components(&cs);
    if normalized.len() == 0 {
        return None;
    }
    let mut names: Vec<Vec<u8>> = Vec::new();
    let mut i: usize = 0;
    while i < normalized.len()
        invariant
            i <= normalized@.len(),
            names_view(names@) == names_of(components_view(normalized@)).take(i as int),
        decreases normalized@.len() - i,
    {
        let ghost before = names_view(names@);
        let name = match &normalized[i] {
            Component::Normal(name) => copy_bytes(name.as_slice()),
            _ => Vec::new(),
        };
        assert(components_view(normalized@)[i as int] == normalized@[i as int]@);
        assert(name@ == names_of(components_view(normalized@))[i as int]);
        names.push(name);
        assert(names_view(names@) =~= before.push(name@));
        assert(names_view(names@) =~= names_of(components_view(normalized@)).take(i + 1));
        i = i + 1;
    }
    assert(names_of(components_view(normalized@)).take(i as int) =~= names_of(
        components_view(normalized@),
    ));
    Some(names)
}

/// The bytes that a component is written with.
pub open spec fn component_bytes(c: ComponentView) -> Seq<u8> {
    match c {
        ComponentView::RootDir => seq![SEPARATOR],
        ComponentView::CurDir => dot(),
        ComponentView::ParentDir => dot_dot(),
        ComponentView::Normal(name) => name,
    }
}

/// `base` followed by the path `tail`: `tail` alone where it is absolute or
/// `base` is empty, else the two with one separator between them.
pub open spec fn push_path(base: Seq<u8>, tail: Seq<u8>) -> Seq<u8> {
    if is_absolute(tail) || base.len() == 0 {
        tail
    } else if base.last() == SEPARATOR {
        base + tail
    } else {
        base.push(SEPARATOR) + tail
    }
}

/// The path that a row of components is written as, with one separator
/// between two components.
pub open spec fn join(cs: Seq<ComponentView>) -> Seq<u8>
    decreases cs.len(),
{
    if cs.len() == 0 {
        Seq::empty()
    } else {
        push_path(join(cs.drop_last()), component_bytes(cs.last()))
    }
}

/// The path `path` in its simplest form: without `.`, without a name that a
/// `..` behind it takes away, and with one separator between two components.
pub open spec fn normalized_path(path: Seq<u8>) -> Seq<u8> {
    join(normalize(components(path)))
}

/// Appends the path `tail` to `base`.
pub fn push(base: &mut Vec<u8>, tail: &[u8])
    ensures
        final(base)@ == push_path(old(base)@, tail@),
{
    if tail.len() > 0 && tail[0] == SEPARATOR {
        base.clear();
    } else if base.len() > 0 && base[base.len() - 1] != SEPARATOR {
        base.push(SEPARATOR);
    }
    base.extend_from_slice(tail);
    assert(base@ =~= push_path(old(base)@, tail@));
}

/// Writes a row of components as a path.
pub fn join_components(cs: &Vec<Component>) -> (path: Vec<u8>)
    ensures
        path@ == join(components_view(cs@)),
{
    let mut path: Vec<u8> = Vec::new();
    let ghost all = components_view(cs@);
    let mut i: usize = 0;
    assert(all.take(0) =~= Seq::<ComponentView>::empty());
    while i < cs.len()
        invariant
            i <= cs@.len(),
            all == components_view(cs@),
            path@ == join(all.take(i as int)),
        decreases cs@.len() - i,
    {
        assert(all.take(i + 1).drop_last() =~= all.take(i as int));
        assert(all.take(i + 1).last() == cs@[i as int]@);
        match &cs[i] {
            Component::RootDir => {
                let sep = [SEPARATOR];
                assert(sep@ =~= seq![SEPARATOR]);
                push(&mut path, sep.as_slice());
            },
            Component::CurDir => {
                let name = [DOT];
                assert(name@ =~= dot());
                push(&mut path, name.as_slice());
            },
            Component::ParentDir => {
                let name = [DOT, DOT];
                assert(name@ =~= dot_dot());
                push(&mut path, name.as_slice());
            },
            Component::Normal(name) => {
                push(&mut path, name.as_slice());
            },
        }
        i = i + 1;
    }
    assert(all.take(i as int) =~= all);
    path
}

/// Brings a path into its simplest form, without a look at the file system:
/// `.` is dropped, `..` takes away the ordinary name before it and is dropped
/// at the root directory, and a `..` that has no name to take away is kept.
pub fn normalize_path(path: &[u8]) -> (normalized: Vec<u8>)
    ensures
        normalized@ == normalized_path(path@),
{
    let cs = parse_components(path);
    let normalized = normalize_components(&cs);
    join_components(&normalized)
}

/// What the file system holds at a path.
#[derive(Debug, Clone, Copy, PartialEq, Eq, Structural)]
pub enum PathKind {
    /// Nothing.
    Missing,
    /// A file.
    File,
    /// A directory.
    Directory,
    /// Something that is neither a file nor a directory.
    Other,
}

/// The position of the last `.` in `name`, if it holds one.
pub open spec fn last_dot(name: Seq<u8>) -> Option<int>
    decreases name.len(),
{
    if name.len() == 0 {
        None
    } else if name.last() == DOT {
        Some(name.len() - 1)
    } else {
        last_dot(name.drop_last())
    }
}

/// A file name without its extension: what stands before the last `.`, or
/// the whole name where it holds no `.` or only starts with one.
pub open spec fn stem_of(name: Seq<u8>) -> Seq<u8> {
    match last_dot(name) {
        Some(i) => if i == 0 {
            name
        } else {
            name.take(i)
        },
        None => name,
    }
}

/// The extension of a file name: what stands behind the last `.`, unless the
/// name holds no `.` or only starts with one.
pub open spec fn extension_of(name: Seq<u8>) -> Option<Seq<u8>> {
    match last_dot(name) {
        Some(i) => if i == 0 {
            None
        } else {
            Some(name.skip(i + 1))
        },
        None => None,
    }
}

/// The last component of `path`, if it is an ordinary name.
pub open spec fn file_name(path: Seq<u8>) -> Option<Seq<u8>> {
    let cs = components(path);
    if cs.len() > 0 && cs.last() is Normal {
        Some(cs.last()->Normal_0)
    } else {
        None
    }
}

/// The file name of `path` without its extension.
pub open spec fn file_stem(path: Seq<u8>) -> Option<Seq<u8>> {
    match file_name(path) {
        Some(name) => Some(stem_of(name)),
        None => None,
    }
}

/// The extension of the file name of `path`.
pub open spec fn extension(path: Seq<u8>) -> Option<Seq<u8>> {
    match file_name(path) {
        Some(name) => extension_of(name),
        None => None,
    }
}

/// `path` with `ext` in place of its extension, written with one separator
/// between two components; `path` itself where it has no file name.
pub open spec fn with_extension(path: Seq<u8>, ext: Seq<u8>) -> Seq<u8> {
    let cs = components(path);
    match file_name(path) {
        Some(name) => {
            let renamed = if ext.len() == 0 {
                stem_of(name)
            } else {
                stem_of(name).push(DOT) + ext
            };
            join(cs.drop_last().push(ComponentView::Normal(renamed)))
        },
        None => path,
    }
}

/// `path` without its last component, written with one separator between
/// two components; `None` where `path` is empty or ends at the root
/// directory.
pub open spec fn parent(path: Seq<u8>) -> Option<Seq<u8>> {
    let cs = components(path);
    if cs.len() > 0 && !(cs.last() is RootDir) {
        Some(join(cs.drop_last()))
    } else {
        None
    }
}

/// What is left of `path` behind the components of `base`, written with one
/// separator between two components; `None` where `path` does not start with
/// the components of `base`.
pub open spec fn strip_prefix(path: Seq<u8>, base: Seq<u8>) -> Option<Seq<u8>> {
    let cs = components(path);
    let bs = components(base);
    if bs.len() <= cs.len() && cs.take(bs.len() as int) == bs {
        Some(join(cs.skip(bs.len() as int)))
    } else {
        None
    }
}

fn find_last_dot(name: &[u8]) -> (found: Option<usize>)
    ensures
        found matches Some(i) ==> last_dot(name@) == Some(i as int) && i < name@.len(),
        found is None ==> last_dot(name@) is None,
{
    let mut i = name.len();
    assert(name@.take(i as int) =~= name@);
    while i > 0
        invariant
            i <= name@.len(),
            last_dot(name@) == last_dot(name@.take(i as int)),
        decreases i,
    {
        assert(name@.take(i as int).last() == name@[i - 1]);
        assert(name@.take(i as int).drop_last() =~= name@.take(i - 1));
        if name[i - 1] == DOT {
            return Some(i - 1);
        }
        i = i - 1;
    }
    None
}

/// The file name `name` without its extension.
pub fn name_stem(name: &[u8]) -> (stem: Vec<u8>)
    ensures
        stem@ == stem_of(name@),
{
    match find_last_dot(name) {
        Some(i) => if i == 0 {
            copy_bytes(name)
        } else {
            let stem = copy_bytes(slice_subrange(name, 0, i));
            assert(stem@ =~= name@.take(i as int));
            stem
        },
        None => copy_bytes(name),
    }
}

/// The extension of the file name `name`.
pub fn name_extension(name: &[u8]) -> (ext: Option<Vec<u8>>)
    ensures
        match extension_of(name@) {
            Some(e) => ext matches Some(found) && found@ == e,
            None => ext is None,
        },
{
    match find_last_dot(name) {
        Some(i) => if i == 0 {
            None
        } else {
            let n = name.len();
            let ext = copy_bytes(slice_subrange(name, i + 1, n));
            assert(ext@ =~= name@.skip(i + 1));
            Some(ext)
        },
        None => None,
    }
}

/// The last component of `path`, if it is an ordinary name.
pub fn path_file_name(path: &[u8]) -> (name: Option<Vec<u8>>)
    ensures
        match file_name(path@) {
            Some(n) => name matches Some(found) && found@ == n,
            None => name is None,
        },
{
    let cs = parse_components(path);
    let n = cs.len();
    if n == 0 {
        return None;
    }
    assert(components_view(cs@).last() == cs@[n - 1]@);
    match &cs[n - 1] {
        Component::Normal(name) => Some(copy_bytes(name.as_slice())),
        _ => None,
    }
}

/// The file name of `path` without its extension.
pub fn path_file_stem(path: &[u8]) -> (stem: Option<Vec<u8>>)
    ensures
        match file_stem(path@) {
            Some(s) => stem matches Some(found) && found@ == s,
            None => stem is None,
        },
{
    match path_file_name(path) {
        Some(name) => Some(name_stem(name.as_slice())),
        None => None,
    }
}

/// The extension of the file name of `path`.
pub fn path_extension(path: &[u8]) -> (ext: Option<Vec<u8>>)
    ensures
        match extension(path@) {
            Some(e) => ext matches Some(found) && found@ == e,
            None => ext is None,
        },
{
    match path_file_name(path) {
        Some(name) => name_extension(name.as_slice()),
        None => None,
    }
}

/// Puts `ext` in the place of the extension of `path`.
pub fn path_with_extension(path: &[u8], ext: &[u8]) -> (renamed: Vec<u8>)
    ensures
        renamed@ == with_extension(path@, ext@),
{
    let mut cs = parse_components(path);
    let n = cs.len();
    if n == 0 {
        return copy_bytes(path);
    }
    let ghost all = components_view(cs@);
    assert(all.last() == cs@[n - 1]@);
    let mut name = match &cs[n - 1] {
        Component::Normal(name) => name_stem(name.as_slice()),
        _ => { return copy_bytes(path); },
    };
    if ext.len() > 0 {
        name.push(DOT);
        name.extend_from_slice(ext);
    }
    assert(name@ =~= if ext@.len() == 0 {
        stem_of(all.last()->Normal_0)
    } else {
        stem_of(all.last()->Normal_0).push(DOT) + ext@
    });
    cs.pop();
    cs.push(Component::Normal(name));
    assert(components_view(cs@) =~= all.drop_last().push(ComponentView::Normal(name@)));
    join_components(&cs)
}

/// Takes the last component off `path`.
pub fn path_parent(path: &[u8]) -> (up: Option<Vec<u8>>)
    ensures
        match parent(path@) {
            Some(p) => up matches Some(found) && found@ == p,
            None => up is None,
        },
{
    let mut cs = parse_components(path);
    let n = cs.len();
    if n == 0 {
        return None;
    }
    let ghost all = components_view(cs@);
    assert(all.last() == cs@[n - 1]@);
    match &cs[n - 1] {
        Component::RootDir => { return None; },
        _ => {},
    }
    cs.pop();
    assert(components_view(cs@) =~= all.drop_last());
    Some(join_components(&cs))
}

fn same_bytes(a: &[u8], b: &[u8]) -> (same: bool)
    ensures
        same == (a@ == b@),
{
    if a.len() != b.len() {
        return false;
    }
    let mut i: usize = 0;
    while i < a.len()
        invariant
            i <= a@.len(),
            a@.len() == b@.len(),
            a@.take(i as int) == b@.take(i as int),
        decreases a@.len() - i,
    {
        if a[i] != b[i] {
            return false;
        }
        assert(a@.take(i + 1) =~= a@.take(i as int).push(a@[i as int]));
        assert(b@.take(i + 1) =~= b@.take(i as int).push(b@[i as int]));
        i = i + 1;
    }
    assert(a@.take(i as int) =~= a@);
    assert(b@.take(i as int) =~= b@);
    true
}

fn same_component(a: &Component, b: &Component) -> (same: bool)
    ensures
        same == (a@ == b@),
{
    match (a, b) {
        (Component::RootDir, Component::RootDir) => true,
        (Component::CurDir, Component::CurDir) => true,
        (Component::ParentDir, Component::ParentDir) => true,
        (Component::Normal(x), Component::Normal(y)) => same_bytes(x.as_slice(), y.as_slice()),
        _ => false,
    }
}

/// Takes the components of `base` off the front of `path`.
pub fn path_strip_prefix(path: &[u8], base: &[u8]) -> (rest: Option<Vec<u8>>)
    ensures
        match strip_prefix(path@, base@) {
            Some(r) => rest matches Some(found) && found@ == r,
            None => rest is None,
        },
{
    let cs = parse_components(path);
    let bs = parse_components(base);
    if bs.len() > cs.len() {
        return None;
    }
    let ghost all = components_view(cs@);
    let ghost front = components_view(bs@);
    let mut i: usize = 0;
    while i < bs.len()
        invariant
            i <= bs@.len() <= cs@.len(),
            all == components_view(cs@),
            front == components_view(bs@),
            all == components(path@),
            front == components(base@),
            all.take(i as int) == front.take(i as int),
        decreases bs@.len() - i,
    {
        if !same_component(&cs[i], &bs[i]) {
            assert(all[i as int] == cs@[i as int]@);
            assert(front[i as int] == bs@[i as int]@);
            assert(all.take(bs@.len() as int)[i as int] != front[i as int]);
            return None;
        }
        assert(all.take(i + 1) =~= all.take(i as int).push(all[i as int]));
        assert(front.take(i + 1) =~= front.take(i as int).push(front[i as int]));
        i = i + 1;
    }
    assert(front.take(i as int) =~= front);
    let mut rest: Vec<Component> = Vec::new();
    let mut j: usize = bs.len();
    while j < cs.len()
        invariant
            bs@.len() <= j <= cs@.len(),
            all == components_view(cs@),
            components_view(rest@) == all.subrange(bs@.len() as int, j as int),
        decreases cs@.len() - j,
    {
        let ghost before = components_view(rest@);
        rest.push(copy_component(&cs[j]));
        assert(all[j as int] == cs@[j as int]@);
        assert(components_view(rest@) =~= before.push(all[j as int]));
        assert(components_view(rest@) =~= all.subrange(bs@.len() as int, j + 1));
        j = j + 1;
    }
    assert(all.subrange(bs@.len() as int, j as int) =~= all.skip(bs@.len() as int));
    Some(join_components(&rest))
}

/// Whether `ext` is the extension of an archive's file name.
pub fn is_archive_extension(ext: &Vec<u8>) -> (yes: bool)
    ensures
        yes == (ext@ == EXTENSION@),
{
    let yes = ext.len() == 3 && ext[0] == EXTENSION[0] && ext[1] == EXTENSION[1] && ext[2]
        == EXTENSION[2];
    assert(yes ==> ext@ =~= EXTENSION@);
    yes
}

/// Where an archive goes, or is extracted to, if nothing else is said:
/// beside the source, which is the current directory where the source has no
/// parent.
pub open spec fn default_target_path(source: Seq<u8>) -> Seq<u8> {
    match parent(source) {
        Some(up) => up,
        None => dot(),
    }
}

/// The directory beside `source`, or `.` where `source` has no parent.
pub fn default_target(source: &[u8]) -> (target: Vec<u8>)
    ensures
        target@ == default_target_path(source@),
{
    match path_parent(source) {
        Some(up) => up,
        None => {
            let mut target: Vec<u8> = Vec::new();
            target.push(DOT);
            assert(target@ =~= dot());
            target
        },
    }
}

/// Whether every ordinary name in `cs` is a plain name.
pub open spec fn all_plain(cs: Seq<ComponentView>) -> bool {
    forall|i: int|
        0 <= i < cs.len() ==> ((#[trigger] cs[i]) matches ComponentView::Normal(name)
            ==> is_plain_name(name))
}

/// Whether every component in `cs` is an ordinary name.
pub open spec fn all_normal(cs: Seq<ComponentView>) -> bool {
    forall|i: int| 0 <= i < cs.len() ==> (#[trigger] cs[i]) is Normal
}

/// No segment of a path holds a separator.
pub proof fn lemma_segments_hold_no_separator(path: Seq<u8>)
    ensures
        segments(path).len() > 0,
        forall|i: int|
            0 <= i < segments(path).len() ==> !(#[trigger] segments(path)[i]).contains(SEPARATOR),
    decreases path.len(),
{
    if path.len() > 0 {
        lemma_segments_hold_no_separator(path.drop_last());
        let before = segments(path.drop_last());
        let all = segments(path);
        assert forall|i: int| 0 <= i < all.len() implies !(#[trigger] all[i]).contains(
            SEPARATOR,
        ) by {
            if i < all.len() - 1 {
                assert(all[i] == before[i]);
            } else if path.last() != SEPARATOR {
                let grown = before.last().push(path.last());
                assert(all[i] == grown);
                if grown.contains(SEPARATOR) {
                    let j = choose|j: int| 0 <= j < grown.len() && grown[j] == SEPARATOR;
                    assert(before.last()[j] == SEPARATOR);
                    assert(before.last().contains(SEPARATOR));
                }
            }
        }
    }
}

/// The ordinary names among the components of segments without separators
/// are plain names.
pub proof fn lemma_segment_components_plain(segs: Seq<Seq<u8>>)
    requires
        forall|i: int| 0 <= i < segs.len() ==> !(#[trigger] segs[i]).contains(SEPARATOR),
    ensures
        all_plain(segment_components(segs)),
    decreases segs.len(),
{
    if segs.len() > 0 {
        assert forall|i: int| 0 <= i < segs.drop_last().len() implies !(
        #[trigger] segs.drop_last()[i]).contains(SEPARATOR) by {
            assert(segs.drop_last()[i] == segs[i]);
        }
        lemma_segment_components_plain(segs.drop_last());
        let before = segment_components(segs.drop_last());
        let added = segment_component(segs.last(), segs.len() == 1);
        let all = segment_components(segs);
        assert(segs.last() == segs[segs.len() - 1]);
        assert forall|i: int| 0 <= i < all.len() implies ((#[trigger] all[i]) matches ComponentView::Normal(
            name,
        ) ==> is_plain_name(name)) by {
            if i < before.len() {
                assert(all[i] == before[i]);
            } else {
                assert(all[i] == added[i - before.len()]);
            }
        }
    }
}

/// The ordinary names among the components of a path are plain names.
pub proof fn lemma_components_plain(path: Seq<u8>)
    ensures
        all_plain(components(path)),
{
    lemma_segments_hold_no_separator(path);
    lemma_segment_components_plain(segments(path));
    let inner = segment_components(segments(path));
    let all = components(path);
    assert forall|i: int| 0 <= i < all.len() implies ((#[trigger] all[i]) matches ComponentView::Normal(
        name,
    ) ==> is_plain_name(name)) by {
        if is_absolute(path) {
            if i > 0 {
                assert(all[i] == inner[i - 1]);
            }
        }
    }
}

/// Simplifying a row of components makes no new names: where the ordinary
/// names were plain, they still are; and where the row held neither the root
/// directory nor `..`, only ordinary names are left.
pub proof fn lemma_normalize_keeps_plain(cs: Seq<ComponentView>)
    requires
        all_plain(cs),
    ensures
        all_plain(normalize(cs)),
        is_confined(cs) ==> all_normal(normalize(cs)),
    decreases cs.len(),
{
    if cs.len() > 0 {
        let init = cs.drop_last();
        assert forall|i: int| 0 <= i < init.len() implies ((#[trigger] init[i]) matches ComponentView::Normal(
            name,
        ) ==> is_plain_name(name)) by {
            assert(init[i] == cs[i]);
        }
        if is_confined(cs) {
            assert forall|i: int| 0 <= i < init.len() implies !(#[trigger] init[i] is RootDir)
                && !(init[i] is ParentDir) by {
                assert(init[i] == cs[i]);
            }
        }
        lemma_normalize_keeps_plain(init);
        let stack = normalize(init);
        let c = cs.last();
        assert(c == cs[cs.len() - 1]);
        let next = normalize_step(stack, c);
        assert forall|i: int| 0 <= i < next.len() implies ((#[trigger] next[i]) matches ComponentView::Normal(
            name,
        ) ==> is_plain_name(name)) by {
            if i < stack.len() {
                assert(next[i] is Normal ==> next[i] == stack[i]);
            }
        }
        if is_confined(cs) {
            assert forall|i: int| 0 <= i < next.len() implies (#[trigger] next[i]) is Normal by {
                if i < stack.len() {
                    assert(next[i] == stack[i]);
                }
            }
        }
    }
}

/// A path that `confined_path` gives is not empty and made of plain names
/// alone, so that it leads to a file below the directory it starts from.
pub proof fn lemma_confined_path_is_plain(name: Seq<u8>)
    requires
        confined_path(name) is Some,
    ensures
        confined_path(name)->Some_0.len() > 0,
        forall|i: int|
            0 <= i < confined_path(name)->Some_0.len() ==> is_plain_name(
                #[trigger] confined_path(name)->Some_0[i],
            ),
{
    let cs = components(name);
    lemma_components_plain(name);
    lemma_normalize_keeps_plain(cs);
    let n = normalize(cs);
    let names = names_of(n);
    assert forall|i: int| 0 <= i < names.len() implies is_plain_name(#[trigger] names[i]) by {
        assert(n[i] is Normal);
    }
}

/// A name with a `..` component, or one that starts at the root directory,
/// is refused.
pub proof fn lemma_escaping_name_is_refused(name: Seq<u8>, i: int)
    requires
        0 <= i < components(name).len(),
        components(name)[i] is ParentDir || components(name)[i] is RootDir,
    ensures
        confined_path(name) is None,
{
}

/// The empty name names no file.
pub proof fn lemma_empty_name_is_refused()
    ensures
        confined_path(Seq::<u8>::empty()) is None,
{
    let path = Seq::<u8>::empty();
    let segs = segments(path);
    assert(segs =~= seq![Seq::<u8>::empty()]);
    assert(segs.drop_last() =~= Seq::<Seq<u8>>::empty());
    assert(segment_components(segs.drop_last()) =~= Seq::<ComponentView>::empty());
    assert(segs.last() =~= Seq::<u8>::empty());
    assert(segment_component(segs.last(), true) =~= Seq::<ComponentView>::empty());
    assert(segment_components(segs) =~= Seq::<ComponentView>::empty());
    assert(normalize(components(path)) =~= Seq::<ComponentView>::empty());
}

/// The ordinary components with the names `names`.
pub open spec fn normals(names: Seq<Seq<u8>>) -> Seq<ComponentView> {
    Seq::new(names.len(), |i: int| ComponentView::Normal(names[i]))
}

/// Whether every name in `names` is a plain name.
pub open spec fn plain_names(names: Seq<Seq<u8>>) -> bool {
    forall|i: int| 0 <= i < names.len() ==> is_plain_name(#[trigger] names[i])
}

/// Bytes without a separator, put behind a path, lengthen its last segment.
pub proof fn lemma_segments_append(path: Seq<u8>, more: Seq<u8>)
    requires
        !more.contains(SEPARATOR),
    ensures
        segments(path).len() > 0,
        segments(path + more) == segments(path).drop_last().push(segments(path).last() + more),
    decreases more.len(),
{
    lemma_segments_hold_no_separator(path);
    let before = segments(path);
    if more.len() == 0 {
        assert(path + more =~= path);
        assert(before.last() + more =~= before.last());
        assert(before.drop_last().push(before.last()) =~= before);
    } else {
        let init = more.drop_last();
        assert(!init.contains(SEPARATOR)) by {
            if init.contains(SEPARATOR) {
                let j = choose|j: int| 0 <= j < init.len() && init[j] == SEPARATOR;
                assert(more[j] == SEPARATOR);
            }
        }
        lemma_segments_append(path, init);
        assert((path + more).drop_last() =~= path + init);
        assert((path + more).last() == more.last());
        assert(more[more.len() - 1] != SEPARATOR);
        let grown = before.drop_last().push(before.last() + init);
        assert(grown.drop_last() =~= before.drop_last());
        assert(grown.last().push(more.last()) =~= before.last() + more);
    }
}

/// Plain names written as a path: the path is not empty, neither starts nor
/// ends with a separator, and its segments are the names.
pub proof fn lemma_join_plain(names: Seq<Seq<u8>>)
    requires
        names.len() > 0,
        plain_names(names),
    ensures
        join(normals(names)).len() > 0,
        join(normals(names))[0] != SEPARATOR,
        join(normals(names)).last() != SEPARATOR,
        segments(join(normals(names))) == names,
    decreases names.len(),
{
    let name = names.last();
    assert(name == names[names.len() - 1]);
    assert(is_plain_name(name));
    assert(name[0] != SEPARATOR && name.last() != SEPARATOR) by {
        if name[0] == SEPARATOR || name[name.len() - 1] == SEPARATOR {
            assert(name.contains(SEPARATOR));
        }
    }
    assert(normals(names).last() == ComponentView::Normal(name));
    assert(normals(names).drop_last() =~= normals(names.drop_last()));
    if names.len() == 1 {
        assert(normals(names.drop_last()) =~= Seq::<ComponentView>::empty());
        let empty = Seq::<u8>::empty();
        assert(normals(names).drop_last() =~= Seq::<ComponentView>::empty());
        assert(join(normals(names).drop_last()) =~= empty);
        assert(component_bytes(normals(names).last()) == name);
        assert(push_path(empty, name) == name);
        assert(join(normals(names)) == name);
        lemma_segments_append(empty, name);
        assert(empty + name =~= name);
        assert(segments(empty) =~= seq![empty]);
        assert(segments(name) =~= names);
    } else {
        let init = names.drop_last();
        assert(plain_names(init)) by {
            assert forall|i: int| 0 <= i < init.len() implies is_plain_name(#[trigger] init[i]) by {
                assert(init[i] == names[i]);
            }
        }
        lemma_join_plain(init);
        let before = join(normals(init));
        let cut = before.push(SEPARATOR);
        assert(join(normals(names)) == cut + name);
        assert(cut.drop_last() =~= before);
        assert(segments(cut) == segments(before).push(Seq::<u8>::empty()));
        lemma_segments_append(cut, name);
        assert(segments(cut).drop_last() =~= segments(before));
        assert(Seq::<u8>::empty() + name =~= name);
        assert(init.push(name) =~= names);
        assert((cut + name)[0] == before[0]);
        assert((cut + name).last() == name.last());
    }
}

/// Plain names as segments stand for ordinary components, one each.
pub proof fn lemma_plain_segment_components(names: Seq<Seq<u8>>)
    requires
        plain_names(names),
    ensures
        segment_components(names) == normals(names),
    decreases names.len(),
{
    if names.len() == 0 {
        assert(segment_components(names) =~= normals(names));
    } else {
        let init = names.drop_last();
        assert(plain_names(init)) by {
            assert forall|i: int| 0 <= i < init.len() implies is_plain_name(#[trigger] init[i]) by {
                assert(init[i] == names[i]);
            }
        }
        lemma_plain_segment_components(init);
        assert(names.last() == names[names.len() - 1]);
        assert(is_plain_name(names.last()));
        assert(segment_components(names) =~= normals(names));
    }
}

/// A row of ordinary components is in its simplest form.
pub proof fn lemma_normalize_normals(names: Seq<Seq<u8>>)
    ensures
        normalize(normals(names)) == normals(names),
    decreases names.len(),
{
    if names.len() == 0 {
        assert(normals(names) =~= Seq::<ComponentView>::empty());
    } else {
        lemma_normalize_normals(names.drop_last());
        assert(normals(names).drop_last() =~= normals(names.drop_last()));
        assert(normals(names).last() == ComponentView::Normal(names.last()));
        assert(normals(names.drop_last()).push(ComponentView::Normal(names.last())) =~= normals(
            names,
        ));
    }
}

/// A name that is written from plain names, with one separator between two
/// of them, is read back as these names: what goes into an archive under
/// such a name comes out of it under the same.
pub proof fn lemma_plain_names_are_read_back(names: Seq<Seq<u8>>)
    requires
        names.len() > 0,
        plain_names(names),
    ensures
        confined_path(join(normals(names))) == Some(names),
{
    let name = join(normals(names));
    lemma_join_plain(names);
    lemma_plain_segment_components(names);
    lemma_normalize_normals(names);
    assert(components(name) == normals(names));
    assert(is_confined(normals(names)));
    assert(names_of(normals(names)) =~= names);
}

/// Whether a row of components is in its simplest form: it holds no `.`,
/// the root directory stands only at its start, and `..` stands only at the
/// start of a relative path, behind nothing but `..`.
pub open spec fn is_normal_form(cs: Seq<ComponentView>) -> bool {
    forall|i: int|
        0 <= i < cs.len() ==> match #[trigger] cs[i] {
            ComponentView::CurDir => false,
            ComponentView::RootDir => i == 0,
            ComponentView::ParentDir => i == 0 || cs[i - 1] is ParentDir,
            ComponentView::Normal(_) => true,
        }
}

/// What `normalize` gives is in its simplest form.
pub proof fn lemma_normalize_gives_normal_form(cs: Seq<ComponentView>)
    ensures
        is_normal_form(normalize(cs)),
    decreases cs.len(),
{
    if cs.len() > 0 {
        lemma_normalize_gives_normal_form(cs.drop_last());
        let stack = normalize(cs.drop_last());
        let next = normalize_step(stack, cs.last());
        assert forall|i: int| 0 <= i < next.len() implies match #[trigger] next[i] {
            ComponentView::CurDir => false,
            ComponentView::RootDir => i == 0,
            ComponentView::ParentDir => i == 0 || next[i - 1] is ParentDir,
            ComponentView::Normal(_) => true,
        } by {
            if stack.len() > 0 {
                assert(stack.last() == stack[stack.len() - 1]);
            }
            match cs.last() {
                ComponentView::RootDir => {},
                ComponentView::CurDir => {},
                _ => {
                    if i < stack.len() {
                        assert(next[i] == stack[i]);
                        if i > 0 {
                            assert(next[i - 1] == stack[i - 1]);
                        }
                    } else if i > 0 {
                        assert(next[i - 1] == stack[i - 1]);
                    }
                },
            }
        }
    }
}

/// A row of components in its simplest form stays as it is.
pub proof fn lemma_normal_form_is_kept(cs: Seq<ComponentView>)
    requires
        is_normal_form(cs),
    ensures
        normalize(cs) == cs,
    decreases cs.len(),
{
    if cs.len() > 0 {
        let init = cs.drop_last();
        assert(is_normal_form(init)) by {
            assert forall|i: int| 0 <= i < init.len() implies match #[trigger] init[i] {
                ComponentView::CurDir => false,
                ComponentView::RootDir => i == 0,
                ComponentView::ParentDir => i == 0 || init[i - 1] is ParentDir,
                ComponentView::Normal(_) => true,
            } by {
                assert(init[i] == cs[i]);
                if i > 0 {
                    assert(init[i - 1] == cs[i - 1]);
                }
            }
        }
        lemma_normal_form_is_kept(init);
        let last = cs.last();
        assert(last == cs[cs.len() - 1]);
        if init.len() > 0 {
            assert(init.last() == cs[cs.len() - 2]);
        }
        assert(normalize_step(init, last) =~= cs);
    }
}

/// Simplifying twice is simplifying once.
pub proof fn lemma_normalize_is_idempotent(cs: Seq<ComponentView>)
    ensures
        normalize(normalize(cs)) == normalize(cs),
{
    lemma_normalize_gives_normal_form(cs);
    lemma_normal_form_is_kept(normalize(cs));
}

/// A path written from ordinary components alone, of which there is at
/// least one, is read back as the names of these components.
pub proof fn lemma_ordinary_components_are_read_back(path: Seq<u8>, from: int)
    requires
        0 <= from < components(path).len(),
        all_normal(components(path).skip(from)),
    ensures
        confined_path(join(components(path).skip(from))) == Some(
            names_of(components(path).skip(from)),
        ),
{
    let cs = components(path).skip(from);
    let names = names_of(cs);
    lemma_components_plain(path);
    assert(cs =~= normals(names)) by {
        assert forall|i: int| 0 <= i < cs.len() implies cs[i] == normals(names)[i] by {
            assert(cs[i] is Normal);
        }
    }
    assert(plain_names(names)) by {
        assert forall|i: int| 0 <= i < names.len() implies is_plain_name(#[trigger] names[i]) by {
            assert(cs[i] is Normal);
            assert(cs[i] == components(path)[from + i]);
        }
    }
    lemma_plain_names_are_read_back(names);
}

} // verus!
