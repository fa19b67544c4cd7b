//! Unix paths as lists of components.
use crate::text::chars_of;
use vstd::prelude::*;
use vstd::string::*;

verus! {

/// A component of a path.
#[derive(Debug, Clone, PartialEq, Eq)]
pub enum Component {
    RootDir,
    CurDir,
    ParentDir,
    Normal(String),
}

/// The mathematical value of a [`Component`].
pub enum ComponentView {
    RootDir,
    CurDir,
    ParentDir,
    Normal(Seq<char>),
}

impl View for Component {
    type V = ComponentView;

    open spec fn view(&self) -> ComponentView {
        match *self {
            Component::RootDir => ComponentView::RootDir,
            Component::CurDir => ComponentView::CurDir,
            Component::ParentDir => ComponentView::ParentDir,
            Component::Normal(name) => ComponentView::Normal(name@),
        }
    }
}

/// The values of a list of components.
pub open spec fn component_views(components: Seq<Component>) -> Seq<ComponentView> {
    components.map_values(|c: Component| c@)
}

/// How many characters stand in front of the first separator.
pub open spec fn piece_len(path: Seq<char>) -> nat
    decreases path.len(),
{
    if path.len() == 0 || path.first() == '/' {
        0
    } else {
        1 + piece_len(path.drop_first())
    }
}

/// What stands behind the first separator.
pub open spec fn behind_piece(path: Seq<char>) -> Seq<char> {
    if piece_len(path) < path.len() {
        path.skip(piece_len(path) as int + 1)
    } else {
        Seq::empty()
    }
}

/// The components of the pieces between separators: empty pieces and `.` give none.
pub open spec fn inner_components(path: Seq<char>) -> Seq<ComponentView>
    decreases path.len(),
{
    if path.len() == 0 {
        Seq::empty()
    } else {
        let piece = path.take(piece_len(path) as int);
        let rest = inner_components(behind_piece(path));
        if piece.len() == 0 || piece == seq!['.'] {
            rest
        } else if piece == seq!['.', '.'] {
            seq![ComponentView::ParentDir] + rest
        } else {
            seq![ComponentView::Normal(piece)] + rest
        }
    }
}

/// The component that says where a path starts: a leading separator is the root, and a leading
/// `.` is the current directory.
pub open spec fn leading_component(path: Seq<char>) -> Seq<ComponentView> {
    if path.len() > 0 && path.first() == '/' {
        seq![ComponentView::RootDir]
    } else if path.take(piece_len(path) as int) == seq!['.'] {
        seq![ComponentView::CurDir]
    } else {
        Seq::empty()
    }
}

/// The components of a path.
pub open spec fn path_components(path: Seq<char>) -> Seq<ComponentView> {
    leading_component(path) + inner_components(path)
}

/// The text of a component inside a path.
pub open spec fn component_text(c: ComponentView) -> Seq<char> {
    match c {
        ComponentView::RootDir => seq!['/'],
        ComponentView::CurDir => seq!['.'],
        ComponentView::ParentDir => seq!['.', '.'],
        ComponentView::Normal(name) => name,
    }
}

/// A path with one more component behind it. The root starts the path anew.
pub open spec fn extended(path: Seq<char>, c: ComponentView) -> Seq<char> {
    if c is RootDir || path.len() == 0 {
        component_text(c)
    } else if path.last() == '/' {
        path + component_text(c)
    } else {
        path.push('/') + component_text(c)
    }
}

/// The path that a list of components makes.
pub open spec fn path_of(components: Seq<ComponentView>) -> Seq<char>
    decreases components.len(),
{
    if components.len() == 0 {
        Seq::empty()
    } else {
        extended(path_of(components.drop_last()), components.last())
    }
}

/// How many components two lists have in common at the front.
pub open spec fn common_len(a: Seq<ComponentView>, b: Seq<ComponentView>) -> nat
    decreases a.len(),
{
    if a.len() > 0 && b.len() > 0 && a.first() == b.first() {
        1 + common_len(a.drop_first(), b.drop_first())
    } else {
        0
    }
}

/// The components of `full` behind those that it has in common with `base` at the front.
pub open spec fn components_beyond(full: Seq<char>, base: Seq<char>) -> Seq<ComponentView> {
    path_components(full).skip(
        common_len(path_components(full), path_components(base)) as int,
    )
}

proof fn lemma_piece_len(path: Seq<char>)
    ensures
        piece_len(path) <= path.len(),
        piece_len(path) < path.len() ==> path[piece_len(path) as int] == '/',
        forall|i: int| 0 <= i < piece_len(path) ==> path[i] != '/',
    decreases path.len(),
{
    if path.len() > 0 && path.first() != '/' {
        let rest = path.drop_first();
        lemma_piece_len(rest);
        assert forall|i: int| 0 <= i < piece_len(path) implies path[i] != '/' by {
            if i > 0 {
                assert(rest[i - 1] == path[i]);
            }
        }
    }
}

/// The length of the first piece, from where its end is.
proof fn lemma_piece_len_is(path: Seq<char>, n: nat)
    requires
        n <= path.len(),
        n < path.len() ==> path[n as int] == '/',
        forall|i: int| 0 <= i < n ==> path[i] != '/',
    ensures
        piece_len(path) == n,
    decreases path.len(),
{
    if n > 0 {
        lemma_piece_len_is(path.drop_first(), (n - 1) as nat);
    }
}

/// Whether the part of `chars` from `from` up to `to` is `text`.
fn part_is(chars: &Vec<char>, from: usize, to: usize, text: &str) -> (r: bool)
    requires
        from <= to <= chars@.len(),
    ensures
        r == (chars@.subrange(from as int, to as int) == text@),
{
    let text_chars = chars_of(text);
    if to - from != text_chars.len() {
        return false;
    }
    let mut i: usize = 0;
    while i < text_chars.len()
        invariant
            i <= text_chars@.len(),
            text_chars@ == text@,
            to - from == text_chars@.len(),
            from <= to <= chars.len(),
            forall|j: int| 0 <= j < i ==> chars@[from + j] == text@[j],
        decreases text_chars@.len() - i,
    {
        if chars[from + i] != text_chars[i] {
            assert(chars@.subrange(from as int, to as int)[i as int] != text@[i as int]);
            return false;
        }
        i += 1;
    }
    assert(chars@.subrange(from as int, to as int) == text@);
    true
}

/// The components of `path`.
pub fn components(path: &str) -> (r: Vec<Component>)
    ensures
        component_views(r@) == path_components(path@),
{
    let chars = chars_of(path);
    let ghost whole = path@;
    proof {
        reveal_strlit(".");
        reveal_strlit("..");
        assert("."@ == seq!['.']);
        assert(".."@ == seq!['.', '.']);
        assert(whole.skip(0) == whole);
    }
    let mut r: Vec<Component> = Vec::new();
    if chars.len() > 0 && chars[0] == '/' {
        r.push(Component::RootDir);
    } else if chars.len() > 0 && chars[0] == '.' && (chars.len() == 1 || chars[1] == '/') {
        r.push(Component::CurDir);
        proof {
            lemma_piece_len_is(whole, 1);
            assert(whole.take(1) == seq!['.']);
        }
    } else {
        proof {
            lemma_piece_len(whole);
            if whole.take(piece_len(whole) as int) == seq!['.'] {
                assert(whole.take(piece_len(whole) as int)[0] == '.');
            }
        }
    }
    assert(component_views(r@) == leading_component(whole));
    let mut at: usize = 0;
    while at < chars.len()
        invariant
            chars@ == whole,
            whole == path@,
            "."@ == seq!['.'],
            ".."@ == seq!['.', '.'],
            at <= chars@.len(),
            component_views(r@) + inner_components(whole.skip(at as int)) == path_components(whole),
        decreases chars@.len() - at,
    {
        let ghost before = component_views(r@);
        let ghost rest = whole.skip(at as int);
        let mut end: usize = at;
        while end < chars.len() && chars[end] != '/'
            invariant
                chars@ == whole,
                at <= end <= chars@.len(),
                forall|i: int| at <= i < end ==> whole[i] != '/',
            decreases chars@.len() - end,
        {
            end += 1;
        }
        proof {
            lemma_piece_len_is(rest, (end - at) as nat);
            assert(rest.take(end - at) == whole.subrange(at as int, end as int));
            if end < whole.len() {
                assert(behind_piece(rest) == whole.skip(end + 1));
            } else {
                assert(behind_piece(rest) == whole.skip(end as int));
            }
        }
        let ghost tail = inner_components(behind_piece(rest));
        if at == end || part_is(&chars, at, end, ".") {
        } else if part_is(&chars, at, end, "..") {
            r.push(Component::ParentDir);
            assert(component_views(r@) == before.push(ComponentView::ParentDir));
            assert(component_views(r@) + tail == before + (seq![ComponentView::ParentDir] + tail));
        } else {
            let name = path.substring_char(at, end).to_owned();
            r.push(Component::Normal(name));
            let ghost piece = whole.subrange(at as int, end as int);
            assert(component_views(r@) == before.push(ComponentView::Normal(piece)));
            assert(component_views(r@) + tail == before + (seq![ComponentView::Normal(piece)]
                + tail));
        }
        if end < chars.len() {
            at = end + 1;
        } else {
            at = end;
        }
    }
    assert(whole.skip(at as int) == Seq::<char>::empty());
    assert(component_views(r@) + Seq::<ComponentView>::empty() == component_views(r@));
    r
}

/// Whether two components are the same.
fn same_component(a: &Component, b: &Component) -> (r: bool)
    ensures
        r == (a@ == b@),
{
    match (a, b) {
        (Component::RootDir, Component::RootDir) => true,
        (Component::CurDir, Component::CurDir) => true,
        (Component::ParentDir, Component::ParentDir) => true,
        (Component::Normal(x), Component::Normal(y)) => *x == *y,
        _ => false,
    }
}

/// Puts one more component behind a path. The root starts the path anew.
fn push_component(path: &mut String, c: &Component)
    ensures
        final(path)@ == extended(old(path)@, c@),
{
    proof {
        reveal_strlit("/");
        reveal_strlit(".");
        reveal_strlit("..");
        assert("/"@ == seq!['/']);
        assert("."@ == seq!['.']);
        assert(".."@ == seq!['.', '.']);
    }
    let text: &str = match c {
        Component::RootDir => {
            *path = "/".to_owned();
            return;
        },
        Component::CurDir => ".",
        Component::ParentDir => "..",
        Component::Normal(name) => name.as_str(),
    };
    let len: usize = path.as_str().unicode_len();
    if len > 0 && path.as_str().get_char(len - 1) != '/' {
        path.append("/");
        assert(path@ == old(path)@.push('/'));
    }
    path.append(text);
    assert(old(path)@.len() == 0 ==> path@ == component_text(c@));
}

/// The path that leads on from where `full` and `base` part: the components of `full` without
/// those that both start with.
pub fn strip_matching_prefix_components(full: &str, base: &str) -> (r: String)
    ensures
        r@ == path_of(components_beyond(full@, base@)),
{
    let full_components = components(full);
    let base_components = components(base);
    let ghost f = path_components(full@);
    let ghost b = path_components(base@);
    let mut at: usize = 0;
    assert(f.skip(0) == f && b.skip(0) == b);
    while at < full_components.len() && at < base_components.len() && same_component(
        &full_components[at],
        &base_components[at],
    )
        invariant
            component_views(full_components@) == f,
            component_views(base_components@) == b,
            at <= f.len(),
            at <= b.len(),
            common_len(f, b) == at + common_len(f.skip(at as int), b.skip(at as int)),
        decreases full_components@.len() - at,
    {
        proof {
            assert(f[at as int] == full_components@[at as int]@);
            assert(b[at as int] == base_components@[at as int]@);
            assert(f.skip(at as int).drop_first() == f.skip(at + 1));
            assert(b.skip(at as int).drop_first() == b.skip(at + 1));
        }
        at += 1;
    }
    proof {
        if at < f.len() && at < b.len() {
            assert(f[at as int] == full_components@[at as int]@);
            assert(b[at as int] == base_components@[at as int]@);
        }
        assert(common_len(f, b) == at);
    }
    let ghost beyond = f.skip(at as int);
    let mut out = String::new();
    let mut next: usize = at;
    while next < full_components.len()
        invariant
            component_views(full_components@) == f,
            at <= next <= f.len(),
            beyond == f.skip(at as int),
            out@ == path_of(beyond.take(next - at)),
        decreases full_components@.len() - next,
    {
        proof {
            let longer = beyond.take(next - at + 1);
            assert(longer.drop_last() == beyond.take(next - at));
            assert(longer.last() == full_components@[next as int]@);
        }
        push_component(&mut out, &full_components[next]);
        next += 1;
    }
    assert(beyond.take(next - at) == beyond);
    out
}

/// Whether a name can stand between two separators as a name of its own.
pub open spec fn plain_name(name: Seq<char>) -> bool {
    &&& name.len() > 0
    &&& !name.contains('/')
    &&& name != seq!['.']
    &&& name != seq!['.', '.']
}

/// Whether a component can stand anywhere in a path.
pub open spec fn inner_component(c: ComponentView) -> bool {
    match c {
        ComponentView::RootDir => false,
        ComponentView::CurDir => false,
        ComponentView::ParentDir => true,
        ComponentView::Normal(name) => plain_name(name),
    }
}

/// Whether a list of components is one that a path has: the root and the current directory
/// stand at the front only, and names are plain.
pub open spec fn well_formed(cs: Seq<ComponentView>) -> bool {
    forall|i: int|
        0 <= i < cs.len() ==> inner_component(#[trigger] cs[i]) || (i == 0 && (cs[i] is RootDir
            || cs[i] is CurDir))
}

proof fn lemma_inner_components(path: Seq<char>)
    ensures
        forall|i: int|
            0 <= i < inner_components(path).len() ==> inner_component(
                #[trigger] inner_components(path)[i],
            ),
    decreases path.len(),
{
    if path.len() > 0 {
        lemma_piece_len(path);
        lemma_inner_components(behind_piece(path));
        let piece = path.take(piece_len(path) as int);
        let rest = inner_components(behind_piece(path));
        assert forall|i: int| 0 <= i < inner_components(path).len() implies inner_component(
            #[trigger] inner_components(path)[i],
        ) by {
            if inner_components(path).len() == rest.len() {
                assert(inner_component(rest[i]));
            } else if i > 0 {
                assert(inner_components(path)[i] == rest[i - 1]);
            } else {
                assert(forall|j: int| 0 <= j < piece.len() ==> piece[j] == path[j]);
            }
        }
    }
}

/// The components of a path are a well-formed list.
pub proof fn law_components_are_well_formed(path: Seq<char>)
    ensures
        well_formed(path_components(path)),
{
    lemma_inner_components(path);
    let cs = path_components(path);
    let n = leading_component(path).len() as int;
    assert forall|i: int| 0 <= i < cs.len() implies inner_component(#[trigger] cs[i]) || (i == 0
        && (cs[i] is RootDir || cs[i] is CurDir)) by {
        if i >= n {
            assert(cs[i] == inner_components(path)[i - n]);
        }
    }
}

/// A separator splits a path: its inner components are those in front of it, then those behind.
proof fn lemma_inner_concat(a: Seq<char>, b: Seq<char>)
    ensures
        inner_components(a.push('/') + b) == inner_components(a) + inner_components(b),
    decreases a.len(),
{
    let s = a.push('/') + b;
    let n = piece_len(a);
    lemma_piece_len(a);
    lemma_piece_len_is(s, n);
    assert(s.take(n as int) == a.take(n as int));
    if n < a.len() {
        let rest = a.skip(n as int + 1);
        lemma_inner_concat(rest, b);
        assert(behind_piece(s) == rest.push('/') + b);
        assert(inner_components(a) + inner_components(b) == if a.take(n as int).len() == 0
            || a.take(n as int) == seq!['.'] {
            inner_components(rest) + inner_components(b)
        } else if a.take(n as int) == seq!['.', '.'] {
            seq![ComponentView::ParentDir] + (inner_components(rest) + inner_components(b))
        } else {
            seq![ComponentView::Normal(a.take(n as int))] + (inner_components(rest)
                + inner_components(b))
        });
    } else {
        assert(behind_piece(s) == b);
        assert(inner_components(Seq::<char>::empty()) == Seq::<ComponentView>::empty());
        assert(inner_components(a) + inner_components(b) == inner_components(s));
    }
}

/// A component on its own is read back from its text.
proof fn lemma_inner_single(c: ComponentView)
    requires
        inner_component(c),
    ensures
        inner_components(component_text(c)) == seq![c],
{
    let text = component_text(c);
    lemma_piece_len_is(text, text.len());
    assert(text.take(text.len() as int) == text);
    if c is ParentDir {
        assert(text[1] == '.');
        assert(text != seq!['.']) by {
            assert(text.len() != seq!['.'].len());
        }
    }
    assert(inner_components(Seq::<char>::empty()) == Seq::<ComponentView>::empty());
}

/// Where a path starts does not depend on what is put behind it.
proof fn lemma_leading(path: Seq<char>, more: Seq<char>)
    requires
        path.len() > 0,
    ensures
        leading_component(path.push('/') + more) == leading_component(path),
{
    let s = path.push('/') + more;
    lemma_piece_len(path);
    lemma_piece_len_is(s, piece_len(path));
    assert(s.take(piece_len(path) as int) == path.take(piece_len(path) as int));
}

/// The front of a list of components, as far as it says where the path starts.
pub open spec fn leading_of(cs: Seq<ComponentView>) -> Seq<ComponentView> {
    if cs.len() > 0 && (cs.first() is RootDir || cs.first() is CurDir) {
        cs.take(1)
    } else {
        Seq::empty()
    }
}

proof fn lemma_path_of(cs: Seq<ComponentView>)
    requires
        well_formed(cs),
        cs.len() > 0,
    ensures
        path_of(cs).len() > 0,
        path_of(cs).last() == '/' <==> cs.len() == 1 && cs[0] is RootDir,
        leading_component(path_of(cs)) == leading_of(cs),
        inner_components(path_of(cs)) == cs.skip(leading_of(cs).len() as int),
    decreases cs.len(),
{
    let c = cs.last();
    let text = component_text(c);
    let front = cs.drop_last();
    assert(inner_component(c) || cs.len() == 1);
    assert(inner_components(Seq::<char>::empty()) == Seq::<ComponentView>::empty());
    if front.len() == 0 {
        assert(path_of(front) == Seq::<char>::empty());
        assert(path_of(cs) == text);
        if c is RootDir {
            lemma_piece_len_is(text, 0);
            assert(behind_piece(text) == Seq::<char>::empty());
        } else if c is CurDir {
            lemma_piece_len_is(text, 1);
            assert(text.take(1) == text);
        } else {
            lemma_inner_single(c);
            lemma_piece_len_is(text, text.len());
            assert(text.take(text.len() as int) == text);
            if c is ParentDir {
                assert(text.len() != seq!['.'].len());
            } else {
                assert(!text.contains('/'));
                assert(text[0] != '/' && text.last() != '/');
            }
        }
        assert(leading_component(text) == leading_of(cs));
        assert(inner_components(text) == cs.skip(leading_of(cs).len() as int));
    } else {
        assert(forall|i: int| 0 <= i < front.len() ==> front[i] == cs[i]);
        assert(well_formed(front));
        lemma_path_of(front);
        lemma_inner_single(c);
        let path = path_of(front);
        if path.last() == '/' {
            assert(front =~= seq![ComponentView::RootDir]);
            assert(path_of(front.drop_last()) == Seq::<char>::empty());
            assert(path == seq!['/']);
            assert(path + text == Seq::<char>::empty().push('/') + text);
            lemma_inner_concat(Seq::<char>::empty(), text);
            assert(Seq::<ComponentView>::empty() + seq![c] == seq![c]);
        } else {
            lemma_inner_concat(path, text);
            lemma_leading(path, text);
        }
        assert(leading_of(cs) == leading_of(front));
        assert(front.skip(leading_of(cs).len() as int) + seq![c] == cs.skip(
            leading_of(cs).len() as int,
        ));
        if c is Normal {
            assert(!text.contains('/'));
            assert(text.last() != '/');
        }
        assert(path_of(cs).last() == text.last());
    }
}

/// Reading gives back what was written: the path that a well-formed list of components makes
/// has these components.
pub proof fn law_path_has_its_components(cs: Seq<ComponentView>)
    requires
        well_formed(cs),
    ensures
        path_components(path_of(cs)) == cs,
{
    if cs.len() > 0 {
        lemma_path_of(cs);
        assert(leading_of(cs) + cs.skip(leading_of(cs).len() as int) == cs);
    } else {
        let empty = Seq::<char>::empty();
        assert(empty.take(piece_len(empty) as int).len() == 0);
        assert(path_components(empty) == cs);
    }
}

/// The common front of two lists is the longest one: what both start with is the same, and
/// behind it one of the lists ends or they differ.
pub proof fn law_common_front_is_longest(a: Seq<ComponentView>, b: Seq<ComponentView>)
    ensures
        common_len(a, b) <= a.len(),
        common_len(a, b) <= b.len(),
        a.take(common_len(a, b) as int) == b.take(common_len(a, b) as int),
        common_len(a, b) < a.len() && common_len(a, b) < b.len() ==> a[common_len(a, b) as int]
            != b[common_len(a, b) as int],
    decreases a.len(),
{
    if a.len() > 0 && b.len() > 0 && a.first() == b.first() {
        let (x, y) = (a.drop_first(), b.drop_first());
        law_common_front_is_longest(x, y);
        let n = common_len(x, y) as int;
        assert forall|i: int| 0 <= i < n + 1 implies a[i] == b[i] by {
            if i > 0 {
                assert(x.take(n)[i - 1] == y.take(n)[i - 1]);
            }
        }
        assert(a.take(n + 1) == b.take(n + 1));
    } else {
        assert(a.take(0) == b.take(0));
    }
}

/// Stripping loses nothing but the common front: the components of what is left are exactly the
/// components of `full` behind it.
pub proof fn law_stripped_path_has_the_other_components(full: Seq<char>, base: Seq<char>)
    ensures
        path_components(path_of(components_beyond(full, base))) == components_beyond(full, base),
        path_components(full) == path_components(full).take(
            common_len(path_components(full), path_components(base)) as int,
        ) + components_beyond(full, base),
{
    let f = path_components(full);
    let n = common_len(f, path_components(base)) as int;
    law_common_front_is_longest(f, path_components(base));
    law_components_are_well_formed(full);
    let beyond = components_beyond(full, base);
    assert forall|i: int| 0 <= i < beyond.len() implies inner_component(#[trigger] beyond[i]) || (i
        == 0 && (beyond[i] is RootDir || beyond[i] is CurDir)) by {
        assert(beyond[i] == f[i + n]);
    }
    law_path_has_its_components(beyond);
    assert(f == f.take(n) + beyond);
}

/// A path below `base` is left as the path from `base` to it, and `base` itself as the empty
/// path.
pub proof fn law_path_below_base_is_made_relative(
    full: Seq<char>,
    base: Seq<char>,
    below: Seq<ComponentView>,
)
    requires
        path_components(full) == path_components(base) + below,
    ensures
        components_beyond(full, base) == below,
        below.len() == 0 ==> path_of(components_beyond(full, base)) == Seq::<char>::empty(),
{
    let b = path_components(base);
    lemma_common_len_of_extension(b, below);
    assert((b + below).skip(b.len() as int) == below);
}

proof fn lemma_common_len_of_extension(b: Seq<ComponentView>, below: Seq<ComponentView>)
    ensures
        common_len(b + below, b) == b.len(),
    decreases b.len(),
{
    if b.len() > 0 {
        lemma_common_len_of_extension(b.drop_first(), below);
        assert((b + below).drop_first() == b.drop_first() + below);
    }
}

/// The component that a piece between separators gives, if it gives one.
proof fn lemma_inner_piece(piece: Seq<char>)
    requires
        !piece.contains('/'),
    ensures
        inner_components(piece) == if piece.len() == 0 || piece == seq!['.'] {
            Seq::<ComponentView>::empty()
        } else if piece == seq!['.', '.'] {
            seq![ComponentView::ParentDir]
        } else {
            seq![ComponentView::Normal(piece)]
        },
{
    assert forall|i: int| 0 <= i < piece.len() implies piece[i] != '/' by {
        assert(piece.contains(piece[i]));
    }
    lemma_piece_len_is(piece, piece.len());
    assert(piece.take(piece.len() as int) == piece);
    assert(inner_components(Seq::<char>::empty()) == Seq::<ComponentView>::empty());
}

/// A path without a separator has one component, but for the empty path, which has none. With a
/// separator in front of it, it starts at the root.
pub proof fn law_components_of_a_single_piece(piece: Seq<char>)
    requires
        !piece.contains('/'),
    ensures
        path_components(piece) == if piece.len() == 0 {
            Seq::<ComponentView>::empty()
        } else if piece == seq!['.'] {
            seq![ComponentView::CurDir]
        } else if piece == seq!['.', '.'] {
            seq![ComponentView::ParentDir]
        } else {
            seq![ComponentView::Normal(piece)]
        },
        path_components(seq!['/'] + piece) == if piece.len() == 0 || piece == seq!['.'] {
            seq![ComponentView::RootDir]
        } else if piece == seq!['.', '.'] {
            seq![ComponentView::RootDir, ComponentView::ParentDir]
        } else {
            seq![ComponentView::RootDir, ComponentView::Normal(piece)]
        },
{
    lemma_inner_piece(piece);
    assert forall|i: int| 0 <= i < piece.len() implies piece[i] != '/' by {
        assert(piece.contains(piece[i]));
    }
    lemma_piece_len_is(piece, piece.len());
    assert(piece.take(piece.len() as int) == piece);
    let empty = Seq::<char>::empty();
    lemma_inner_concat(empty, piece);
    assert(empty.push('/') + piece == seq!['/'] + piece);
    assert(inner_components(empty) == Seq::<ComponentView>::empty());
    assert(inner_components(seq!['/'] + piece) == inner_components(piece));
    if piece == seq!['.', '.'] {
        assert(piece.len() != seq!['.'].len());
    }
}

/// A path with one more piece behind it has one more component, but for an empty piece and `.`,
/// which give none.
pub proof fn law_components_of_a_longer_path(path: Seq<char>, piece: Seq<char>)
    requires
        path.len() > 0,
        !piece.contains('/'),
    ensures
        path_components(path.push('/') + piece) == if piece.len() == 0 || piece == seq!['.'] {
            path_components(path)
        } else if piece == seq!['.', '.'] {
            path_components(path).push(ComponentView::ParentDir)
        } else {
            path_components(path).push(ComponentView::Normal(piece))
        },
{
    lemma_inner_piece(piece);
    lemma_inner_concat(path, piece);
    lemma_leading(path, piece);
}

/// The text of a path is that of its components with a separator between each two: one at the
/// front where it starts at the root, none behind the last component, and never two in a row.
pub proof fn law_path_joins_its_components(cs: Seq<ComponentView>, c: ComponentView)
    requires
        well_formed(cs),
        inner_component(c),
    ensures
        path_of(Seq::empty()) == Seq::<char>::empty(),
        path_of(seq![ComponentView::RootDir]) == seq!['/'],
        path_of(seq![ComponentView::CurDir]) == seq!['.'],
        path_of(cs.push(c)) == (if cs.len() == 0 {
            Seq::empty()
        } else if cs == seq![ComponentView::RootDir] {
            seq!['/']
        } else {
            path_of(cs).push('/')
        }) + match c {
            ComponentView::Normal(name) => name,
            _ => seq!['.', '.'],
        },
{
    let empty = Seq::<ComponentView>::empty();
    assert(path_of(empty) == Seq::<char>::empty());
    let root = seq![ComponentView::RootDir];
    let cur = seq![ComponentView::CurDir];
    assert(root.drop_last() == empty);
    assert(cur.drop_last() == empty);
    assert(path_of(root) == seq!['/']);
    assert(path_of(cur) == seq!['.']);
    assert(cs.push(c).drop_last() == cs);
    if cs.len() > 0 {
        lemma_path_of(cs);
        if path_of(cs).last() == '/' {
            assert(cs == root);
        }
    } else {
        assert(Seq::<char>::empty() + component_text(c) == component_text(c));
    }
}

/// What stripping leaves has exactly the components of `full` behind those that it shares with
/// `base` at the front. So a path that shares none keeps all its components, and one that lies
/// below `base` or is `base` keeps those below.
pub proof fn law_stripped_path_keeps_what_is_not_shared(
    full: Seq<char>,
    base: Seq<char>,
    shared: int,
)
    requires
        0 <= shared <= path_components(full).len(),
        shared <= path_components(base).len(),
        forall|i: int|
            0 <= i < shared ==> #[trigger] path_components(full)[i] == path_components(base)[i],
        shared < path_components(full).len() && shared < path_components(base).len()
            ==> path_components(full)[shared] != path_components(base)[shared],
    ensures
        path_components(path_of(components_beyond(full, base))) == path_components(full).skip(
            shared,
        ),
        path_of(components_beyond(full, base)) == path_of(path_components(full).skip(shared)),
{
    let (f, b) = (path_components(full), path_components(base));
    let n = common_len(f, b) as int;
    law_common_front_is_longest(f, b);
    law_stripped_path_has_the_other_components(full, base);
    if n < shared {
        assert(f[n] == b[n]);
    }
    if shared < n {
        assert(f.take(n)[shared] == b.take(n)[shared]);
    }
    let beyond = components_beyond(full, base);
    assert(f == f.take(n) + beyond);
    assert(beyond == f.skip(shared));
}

} // verus!
