//! Unix paths as text: their components, joining, the parent directory, and the
//! rule by which a path that a client names is allowed under the storage root.

use vstd::prelude::*;
use vstd::string::*;

use crate::text;

verus! {

/// One component of a path.
#[derive(Debug, PartialEq, Eq)]
pub enum Component {
    /// The `/` that an absolute path starts with.
    RootDir,
    /// A `.` at the start of a relative path.
    CurDir,
    /// A `..`.
    ParentDir,
    /// A name.
    Normal(String),
}

/// The view of a [`Component`].
pub enum Part {
    RootDir,
    CurDir,
    ParentDir,
    Normal(Seq<char>),
}

impl View for Component {
    type V = Part;

    open spec fn view(&self) -> Part {
        match self {
            Component::RootDir => Part::RootDir,
            Component::CurDir => Part::CurDir,
            Component::ParentDir => Part::ParentDir,
            Component::Normal(name) => Part::Normal(name@),
        }
    }
}

/// The views of a sequence of components.
pub open spec fn views(s: Seq<Component>) -> Seq<Part> {
    s.map_values(|c: Component| c@)
}

/// Why a client's path is refused.
#[derive(Debug, Clone, Copy, PartialEq, Eq, Structural)]
pub enum PathError {
    /// It is empty.
    Empty,
    /// It holds a NUL character.
    Nul,
    /// It starts at the root directory.
    Absolute,
    /// It has a `..` among its components.
    ParentDir,
}

/// The stretches of `s` between its slashes, the empty ones among them.
pub open spec fn pieces(s: Seq<char>) -> Seq<Seq<char>>
    decreases s.len(),
{
    if s.len() == 0 {
        seq![Seq::empty()]
    } else {
        let before = pieces(s.drop_last());
        if s.last() == '/' {
            before.push(Seq::empty())
        } else {
            before.drop_last().push(before.last().push(s.last()))
        }
    }
}

/// What one piece adds to the components: nothing if it is empty or `.`.
pub open spec fn part(piece: Seq<char>) -> Seq<Part> {
    if piece.len() == 0 || piece == seq!['.'] {
        seq![]
    } else if piece == seq!['.', '.'] {
        seq![Part::ParentDir]
    } else {
        seq![Part::Normal(piece)]
    }
}

/// What all the pieces add, in order.
pub open spec fn parts(pieces: Seq<Seq<char>>) -> Seq<Part>
    decreases pieces.len(),
{
    if pieces.len() == 0 {
        seq![]
    } else {
        parts(pieces.drop_last()) + part(pieces.last())
    }
}

/// A path is absolute if it starts with a slash.
pub open spec fn absolute(s: Seq<char>) -> bool {
    s.len() > 0 && s[0] == '/'
}

/// The component that only the start of a path can have.
pub open spec fn lead(s: Seq<char>) -> Seq<Part> {
    if absolute(s) {
        seq![Part::RootDir]
    } else if pieces(s)[0] == seq!['.'] {
        seq![Part::CurDir]
    } else {
        seq![]
    }
}

/// The components of a path. Repeated and trailing slashes do not count, nor does
/// a `.` anywhere but at the start of a relative path.
pub open spec fn components_of(s: Seq<char>) -> Seq<Part> {
    lead(s) + parts(pieces(s))
}

/// `path` below `base`: an absolute `path` stands for itself.
pub open spec fn joined(base: Seq<char>, path: Seq<char>) -> Seq<char> {
    if absolute(path) {
        path
    } else if base.len() == 0 || base.last() == '/' {
        base + path
    } else {
        base.push('/') + path
    }
}

/// Where a client's path leads, or the first rule that refuses it.
pub open spec fn resolved(root: Seq<char>, user_path: Seq<char>) -> Result<Seq<char>, PathError> {
    if user_path.len() == 0 {
        Err(PathError::Empty)
    } else if user_path.contains('\0') {
        Err(PathError::Nul)
    } else if absolute(user_path) {
        Err(PathError::Absolute)
    } else if components_of(user_path).contains(Part::ParentDir) {
        Err(PathError::ParentDir)
    } else {
        Ok(joined(root, user_path))
    }
}

/// Whether `s` ends where its last component does.
pub open spec fn trimmed(s: Seq<char>) -> bool {
    ||| s.len() == 0
    ||| s == seq!['/']
    ||| s == seq!['.']
    ||| part(pieces(s).last()).len() > 0
}

/// Whether `dir` is the text of `path` up to the end of its last component but one.
pub open spec fn is_parent(dir: Seq<char>, path: Seq<char>) -> bool {
    &&& dir.is_prefix_of(path)
    &&& components_of(dir) == components_of(path).drop_last()
    &&& trimmed(dir)
}

/// Whether a path has a parent: it has a last component, and that is not the root.
pub open spec fn has_parent(path: Seq<char>) -> bool {
    components_of(path).len() > 0 && components_of(path).last() != Part::RootDir
}

/// What a client is told of a refused path.
pub open spec fn path_error_text(error: PathError) -> Seq<char> {
    match error {
        PathError::Empty => "empty path"@,
        PathError::Nul => "NUL byte in path"@,
        PathError::Absolute => "absolute paths not allowed"@,
        PathError::ParentDir => "path component not allowed: ParentDir"@,
    }
}

impl PathError {
    /// What a client is told of a refused path.
    pub fn message(self) -> (s: &'static str)
        ensures
            s@ == path_error_text(self),
    {
        match self {
            PathError::Empty => "empty path",
            PathError::Nul => "NUL byte in path",
            PathError::Absolute => "absolute paths not allowed",
            PathError::ParentDir => "path component not allowed: ParentDir",
        }
    }
}

/// Whether the characters `chars[start..end]` are `.`.
fn is_dot(chars: &Vec<char>, start: usize, end: usize) -> (b: bool)
    requires
        start <= end <= chars@.len(),
    ensures
        b == (chars@.subrange(start as int, end as int) == seq!['.']),
{
    let b: bool = end - start == 1 && chars[start] == '.';
    proof {
        let piece = chars@.subrange(start as int, end as int);
        if b {
            assert(piece == seq!['.']);
        } else if end - start == 1 {
            assert(piece[0] != seq!['.'][0]);
        } else {
            assert(piece.len() != seq!['.'].len());
        }
    }
    b
}

/// Adds what the piece `s[start..end]` counts as.
fn push_part(out: &mut Vec<Component>, s: &str, chars: &Vec<char>, start: usize, end: usize)
    requires
        chars@ == s@,
        start <= end <= s@.len(),
    ensures
        views(final(out)@) == views(old(out)@) + part(s@.subrange(start as int, end as int)),
{
    let ghost piece = s@.subrange(start as int, end as int);
    let ghost before = views(out@);
    if start == end || is_dot(chars, start, end) {
        assert(before + part(piece) == before);
        return;
    }
    if end - start == 2 && chars[start] == '.' && chars[start + 1] == '.' {
        assert(piece == seq!['.', '.']);
        out.push(Component::ParentDir);
    } else {
        assert(piece != seq!['.', '.']) by {
            if piece == seq!['.', '.'] {
                assert(piece[0] == '.' && piece[1] == '.');
            }
        }
        out.push(Component::Normal(s.substring_char(start, end).to_owned()));
    }
    assert(views(out@) == before + part(piece));
}

/// Whether `cuts` says where each piece of `s` starts and ends.
spec fn are_cuts(cuts: Seq<(usize, usize)>, s: Seq<char>) -> bool {
    &&& cuts.len() == pieces(s).len()
    &&& cuts.len() > 0
    &&& cuts[0].0 == 0
    &&& forall|k: int|
        0 <= k < cuts.len() ==> {
            &&& (#[trigger] cuts[k]).0 <= cuts[k].1 <= s.len()
            &&& s.subrange(cuts[k].0 as int, cuts[k].1 as int) == pieces(s)[k]
            &&& pieces(s.take(cuts[k].1 as int)) == pieces(s).take(k + 1)
        }
}

/// Where each piece of a path starts and ends.
fn cuts_of(chars: &Vec<char>) -> (cuts: Vec<(usize, usize)>)
    ensures
        are_cuts(cuts@, chars@),
{
    let mut cuts: Vec<(usize, usize)> = Vec::new();
    let mut start: usize = 0;
    let mut i: usize = 0;
    let ghost mut closed: Seq<Seq<char>> = seq![];
    assert(chars@.take(0) == Seq::<char>::empty());
    assert(chars@.subrange(0, 0) == Seq::<char>::empty());
    while i < chars.len()
        invariant
            start <= i <= chars@.len(),
            cuts@.len() == closed.len(),
            closed.len() == 0 ==> start == 0,
            closed.len() > 0 ==> cuts@[0].0 == 0,
            pieces(chars@.take(i as int)) == closed.push(chars@.subrange(start as int, i as int)),
            forall|k: int|
                0 <= k < closed.len() ==> {
                    &&& (#[trigger] cuts@[k]).0 <= cuts@[k].1 <= chars@.len()
                    &&& chars@.subrange(cuts@[k].0 as int, cuts@[k].1 as int) == closed[k]
                    &&& pieces(chars@.take(cuts@[k].1 as int)) == closed.take(k + 1)
                },
        decreases chars@.len() - i,
    {
        let ghost piece = chars@.subrange(start as int, i as int);
        let ghost before = closed;
        proof {
            assert(chars@.take(i + 1).drop_last() == chars@.take(i as int));
            assert(closed.push(piece).drop_last() == closed);
        }
        if chars[i] == '/' {
            cuts.push((start, i));
            start = i + 1;
            proof {
                closed = closed.push(piece);
                assert(chars@.subrange(start as int, i + 1) == Seq::<char>::empty());
                assert forall|k: int| 0 <= k < closed.len() implies pieces(
                    chars@.take((#[trigger] cuts@[k]).1 as int),
                ) == closed.take(k + 1) by {
                    if k < before.len() {
                        assert(before.take(k + 1) == closed.take(k + 1));
                    } else {
                        assert(closed.take(k + 1) == closed);
                    }
                }
            }
        } else {
            assert(piece.push(chars@[i as int]) == chars@.subrange(start as int, i + 1));
        }
        i = i + 1;
    }
    cuts.push((start, i));
    proof {
        let s = chars@;
        let all = closed.push(s.subrange(start as int, i as int));
        assert(s.take(i as int) == s);
        assert forall|k: int| 0 <= k < all.len() implies pieces(
            s.take((#[trigger] cuts@[k]).1 as int),
        ) == all.take(k + 1) by {
            if k < closed.len() {
                assert(closed.take(k + 1) == all.take(k + 1));
            } else {
                assert(all.take(k + 1) == all);
            }
        }
    }
    cuts
}

/// The components of `s`.
pub fn components(s: &str) -> (r: Vec<Component>)
    ensures
        views(r@) == components_of(s@),
{
    let chars: Vec<char> = text::chars_of(s);
    let cuts: Vec<(usize, usize)> = cuts_of(&chars);
    let mut r: Vec<Component> = Vec::new();
    if chars.len() > 0 && chars[0] == '/' {
        r.push(Component::RootDir);
    } else if is_dot(&chars, cuts[0].0, cuts[0].1) {
        r.push(Component::CurDir);
    }
    let mut k: usize = 0;
    assert(pieces(s@).take(0) == Seq::<Seq<char>>::empty());
    assert(views(r@) == lead(s@) + parts(pieces(s@).take(0)));
    while k < cuts.len()
        invariant
            chars@ == s@,
            are_cuts(cuts@, s@),
            k <= cuts@.len(),
            views(r@) == lead(s@) + parts(pieces(s@).take(k as int)),
        decreases cuts@.len() - k,
    {
        let ghost before = views(r@);
        let cut: (usize, usize) = cuts[k];
        push_part(&mut r, s, &chars, cut.0, cut.1);
        k = k + 1;
        proof {
            assert(pieces(s@).take(k as int).drop_last() == pieces(s@).take(k - 1));
            assert(views(r@) == lead(s@) + parts(pieces(s@).take(k as int)));
        }
    }
    assert(pieces(s@).take(k as int) == pieces(s@));
    r
}

/// The directory that holds what `path` names, if it has one.
pub fn parent(path: &str) -> (r: Option<String>)
    ensures
        match r {
            Some(dir) => has_parent(path@) && is_parent(dir@, path@),
            None => !has_parent(path@),
        },
{
    let chars: Vec<char> = text::chars_of(path);
    let cuts: Vec<(usize, usize)> = cuts_of(&chars);
    let rooted: bool = chars.len() > 0 && chars[0] == '/';
    // Whether there is a component beside the root so far, and where the last
    // component and the one before it end.
    let mut found: bool = false;
    let mut last_end: usize = 0;
    let mut prev_end: usize = 0;
    let ghost s = path@;
    assert(s.take(0) == Seq::<char>::empty());
    assert(components_of(s.take(0)) == Seq::<Part>::empty()) by {
        lemma_components_empty();
    }
    if rooted {
        last_end = 1;
        assert(s.take(1) == seq!['/']);
        proof { lemma_components_slash(); }
    } else if is_dot(&chars, cuts[0].0, cuts[0].1) {
        found = true;
        last_end = cuts[0].1;
        assert(s.take(last_end as int) == seq!['.']);
        proof { lemma_components_dot(); }
    }
    let mut k: usize = 0;
    assert(pieces(s).take(0) == Seq::<Seq<char>>::empty());
    assert(lead(s) + parts(pieces(s).take(0)) == lead(s));
    while k < cuts.len()
        invariant
            s == path@,
            chars@ == s,
            are_cuts(cuts@, s),
            k <= cuts@.len(),
            rooted == absolute(s),
            found <==> (lead(s) + parts(pieces(s).take(k as int))).len() > (if rooted {
                1int
            } else {
                0
            }),
            last_end <= s.len(),
            prev_end <= s.len(),
            components_of(s.take(last_end as int)) == lead(s) + parts(pieces(s).take(k as int)),
            trimmed(s.take(last_end as int)),
            found ==> components_of(s.take(prev_end as int)) == (lead(s) + parts(
                pieces(s).take(k as int),
            )).drop_last(),
            trimmed(s.take(prev_end as int)),
        decreases cuts@.len() - k,
    {
        let cut: (usize, usize) = cuts[k];
        let ghost piece = pieces(s)[k as int];
        let ghost before = lead(s) + parts(pieces(s).take(k as int));
        let ghost after = lead(s) + parts(pieces(s).take(k + 1));
        proof {
            assert(pieces(s).take(k + 1).drop_last() == pieces(s).take(k as int));
            assert(after == before + part(piece));
        }
        if cut.0 < cut.1 && !is_dot(&chars, cut.0, cut.1) {
            found = true;
            prev_end = last_end;
            last_end = cut.1;
            proof {
                let t = s.take(last_end as int);
                assert(pieces(t) == pieces(s).take(k + 1));
                assert(t[0] == s[0]);
                assert(lead(t) == lead(s));
                assert(after.drop_last() == before);
                assert(pieces(t).last() == piece);
            }
        } else {
            assert(after == before);
        }
        k = k + 1;
    }
    proof {
        assert(pieces(s).take(k as int) == pieces(s));
        lemma_root_is_first(s);
    }
    if found {
        Some(path.substring_char(0, prev_end).to_owned())
    } else {
        None
    }
}

/// `path` below `base`.
pub fn join(base: &str, path: &str) -> (r: String)
    ensures
        r@ == joined(base@, path@),
{
    let base_chars: Vec<char> = text::chars_of(base);
    let path_chars: Vec<char> = text::chars_of(path);
    if path_chars.len() > 0 && path_chars[0] == '/' {
        return path.to_owned();
    }
    let mut r: String = base.to_owned();
    if base_chars.len() > 0 && base_chars[base_chars.len() - 1] != '/' {
        proof {
            reveal_strlit("/");
            assert(base@ + "/"@ == base@.push('/'));
        }
        r.append("/");
    }
    r.append(path);
    r
}

/// Where under `root` the path that a client names leads.
pub fn resolve_safe(root: &str, user_path: &str) -> (r: Result<String, PathError>)
    ensures
        match r {
            Ok(path) => resolved(root@, user_path@) == Ok::<Seq<char>, PathError>(path@),
            Err(e) => resolved(root@, user_path@) == Err::<Seq<char>, PathError>(e),
        },
{
    let chars: Vec<char> = text::chars_of(user_path);
    if chars.len() == 0 {
        return Err(PathError::Empty);
    }
    let mut i: usize = 0;
    while i < chars.len()
        invariant
            chars@ == user_path@,
            chars@.len() > 0,
            i <= chars@.len(),
            !chars@.take(i as int).contains('\0'),
        decreases chars@.len() - i,
    {
        if chars[i] == '\0' {
            assert(user_path@[i as int] == '\0');
            return Err(PathError::Nul);
        }
        assert(chars@.take(i + 1) == chars@.take(i as int).push(chars@[i as int]));
        i = i + 1;
    }
    assert(chars@.take(i as int) == chars@);
    if chars[0] == '/' {
        return Err(PathError::Absolute);
    }
    let parts: Vec<Component> = components(user_path);
    let mut k: usize = 0;
    while k < parts.len()
        invariant
            views(parts@) == components_of(user_path@),
            k <= parts@.len(),
            user_path@.len() > 0,
            !user_path@.contains('\0'),
            !absolute(user_path@),
            forall|j: int| 0 <= j < k ==> #[trigger] components_of(user_path@)[j] != Part::ParentDir,
        decreases parts@.len() - k,
    {
        assert(components_of(user_path@)[k as int] == parts@[k as int]@);
        match &parts[k] {
            Component::Normal(_) => {},
            Component::CurDir => {},
            _ => {
                proof { lemma_root_is_first(user_path@); }
                return Err(PathError::ParentDir);
            },
        }
        k = k + 1;
    }
    Ok(join(root, user_path))
}

/// Whether two paths have the same components.
pub fn same_path(a: &str, b: &str) -> (r: bool)
    ensures
        r == (components_of(a@) == components_of(b@)),
{
    let left: Vec<Component> = components(a);
    let right: Vec<Component> = components(b);
    if left.len() != right.len() {
        assert(views(left@).len() != views(right@).len());
        return false;
    }
    let mut k: usize = 0;
    while k < left.len()
        invariant
            views(left@) == components_of(a@),
            views(right@) == components_of(b@),
            left@.len() == right@.len(),
            k <= left@.len(),
            forall|j: int| 0 <= j < k ==> views(left@)[j] == views(right@)[j],
        decreases left@.len() - k,
    {
        let same: bool = match (&left[k], &right[k]) {
            (Component::RootDir, Component::RootDir) => true,
            (Component::CurDir, Component::CurDir) => true,
            (Component::ParentDir, Component::ParentDir) => true,
            (Component::Normal(x), Component::Normal(y)) => *x == *y,
            _ => false,
        };
        assert(same == (views(left@)[k as int] == views(right@)[k as int]));
        if !same {
            return false;
        }
        k = k + 1;
    }
    assert(views(left@) == views(right@));
    true
}

proof fn lemma_components_empty()
    ensures
        components_of(Seq::<char>::empty()) == Seq::<Part>::empty(),
{
    reveal_with_fuel(pieces, 1);
    reveal_with_fuel(parts, 2);
    assert(pieces(Seq::<char>::empty())[0] == Seq::<char>::empty());
    assert(Seq::<char>::empty().len() != seq!['.'].len());
}

proof fn lemma_components_slash()
    ensures
        components_of(seq!['/']) == seq![Part::RootDir],
{
    let s = seq!['/'];
    reveal_with_fuel(pieces, 2);
    reveal_with_fuel(parts, 3);
    assert(s.drop_last() == Seq::<char>::empty());
    assert(pieces(s) == seq![Seq::<char>::empty(), Seq::<char>::empty()]);
}

proof fn lemma_components_dot()
    ensures
        components_of(seq!['.']) == seq![Part::CurDir],
{
    let s = seq!['.'];
    reveal_with_fuel(pieces, 2);
    reveal_with_fuel(parts, 2);
    assert(s.drop_last() == Seq::<char>::empty());
    assert(Seq::<char>::empty().push('.') == s);
    assert(pieces(s) == seq![s]);
}

/// The root directory is nowhere among the components but at the start of an
/// absolute path.
proof fn lemma_root_is_first(s: Seq<char>)
    ensures
        forall|i: int|
            0 <= i < components_of(s).len() && #[trigger] components_of(s)[i] == Part::RootDir
                ==> i == 0 && absolute(s),
{
    lemma_parts_are_names_or_up(pieces(s));
    assert forall|i: int|
        0 <= i < components_of(s).len() && #[trigger] components_of(s)[i]
            == Part::RootDir implies i == 0 && absolute(s) by {
        if i >= lead(s).len() {
            assert(components_of(s)[i] == parts(pieces(s))[i - lead(s).len()]);
        }
    }
}

proof fn lemma_pieces_nonempty(s: Seq<char>)
    ensures
        pieces(s).len() > 0,
    decreases s.len(),
{
    if s.len() > 0 {
        lemma_pieces_nonempty(s.drop_last());
    }
}

/// A slash between two texts keeps their pieces apart.
proof fn lemma_pieces_across_slash(a: Seq<char>, b: Seq<char>)
    ensures
        pieces(a.push('/') + b) == pieces(a) + pieces(b),
    decreases b.len(),
{
    let whole = a.push('/') + b;
    if b.len() == 0 {
        assert(whole.drop_last() == a);
        assert(whole.last() == '/');
        assert(pieces(a) + pieces(b) == pieces(a).push(Seq::empty()));
    } else {
        lemma_pieces_across_slash(a, b.drop_last());
        lemma_pieces_nonempty(b.drop_last());
        assert(whole.drop_last() == a.push('/') + b.drop_last());
        let left = pieces(a);
        let right = pieces(b.drop_last());
        if b.last() == '/' {
            assert((left + right).push(Seq::empty()) == left + right.push(Seq::empty()));
        } else {
            let longer = right.last().push(b.last());
            assert((left + right).last() == right.last());
            assert((left + right).drop_last().push(longer) == left + right.drop_last().push(
                longer,
            ));
        }
    }
}

/// A text without a slash makes the last piece longer.
pub(crate) proof fn lemma_pieces_of_longer(s: Seq<char>, suffix: Seq<char>)
    requires
        !suffix.contains('/'),
    ensures
        pieces(s).len() > 0,
        pieces(s + suffix) == pieces(s).drop_last().push(pieces(s).last() + suffix),
    decreases suffix.len(),
{
    lemma_pieces_nonempty(s);
    if suffix.len() == 0 {
        assert(s + suffix == s);
        assert(pieces(s).last() + suffix == pieces(s).last());
        assert(pieces(s).drop_last().push(pieces(s).last()) == pieces(s));
    } else {
        let front = suffix.drop_last();
        assert(!front.contains('/')) by {
            if front.contains('/') {
                let i = choose|i: int| 0 <= i < front.len() && front[i] == '/';
                assert(suffix[i] == '/');
            }
        }
        lemma_pieces_of_longer(s, front);
        assert((s + suffix).drop_last() == s + front);
        assert((s + suffix).last() == suffix.last());
        assert(suffix.contains(suffix.last()));
        let longer = pieces(s).last() + front;
        assert(longer.push(suffix.last()) == pieces(s).last() + suffix);
        assert(pieces(s).drop_last().push(longer).drop_last() == pieces(s).drop_last());
    }
}

proof fn lemma_parts_concat(a: Seq<Seq<char>>, b: Seq<Seq<char>>)
    ensures
        parts(a + b) == parts(a) + parts(b),
    decreases b.len(),
{
    if b.len() == 0 {
        assert(a + b == a);
        assert(parts(a) + parts(b) == parts(a));
    } else {
        lemma_parts_concat(a, b.drop_last());
        assert((a + b).drop_last() == a + b.drop_last());
        assert((a + b).last() == b.last());
        assert(parts(a) + parts(b) == parts(a) + parts(b.drop_last()) + part(b.last()));
    }
}

/// The components of a relative path below a directory are those of the
/// directory and then the names in the path.
pub proof fn joined_components(base: Seq<char>, path: Seq<char>)
    requires
        base.len() > 0,
        !absolute(path),
    ensures
        components_of(joined(base, path)) == components_of(base) + parts(pieces(path)),
{
    let whole = joined(base, path);
    if base.last() == '/' {
        let stem = base.drop_last();
        assert(base == stem.push('/'));
        lemma_pieces_across_slash(stem, path);
        lemma_pieces_across_slash(stem, Seq::empty());
        lemma_parts_concat(pieces(stem), pieces(path));
        lemma_pieces_nonempty(stem);
        assert(stem.push('/') + Seq::empty() == base);
        lemma_parts_concat(pieces(stem), pieces(Seq::empty()));
        assert(parts(pieces(Seq::<char>::empty())) == Seq::<Part>::empty()) by {
            reveal_with_fuel(parts, 2);
        }
        assert(parts(pieces(base)) == parts(pieces(stem)));
        assert(whole[0] == base[0]);
        assert(pieces(whole)[0] == pieces(stem)[0]);
        assert(pieces(base)[0] == pieces(stem)[0]);
    } else {
        lemma_pieces_across_slash(base, path);
        lemma_parts_concat(pieces(base), pieces(path));
        lemma_pieces_nonempty(base);
        assert(whole[0] == base[0]);
        assert(pieces(whole)[0] == pieces(base)[0]);
    }
    assert(lead(whole) == lead(base));
    assert(components_of(whole) == components_of(base) + parts(pieces(path)));
}

/// A path that is allowed stays under the root: its components are those of the
/// root and then only names. With an empty root the path is relative to the
/// working directory, and may also start with a `.`.
pub proof fn resolved_stays_under_root(root: Seq<char>, user_path: Seq<char>)
    requires
        resolved(root, user_path) is Ok,
    ensures
        components_of(root).is_prefix_of(components_of(resolved(root, user_path)->Ok_0)),
        forall|i: int|
            components_of(root).len() <= i < components_of(
                resolved(root, user_path)->Ok_0,
            ).len() ==> {
                let c = #[trigger] components_of(resolved(root, user_path)->Ok_0)[i];
                c is Normal || (root.len() == 0 && c == Part::CurDir)
            },
        root.len() > 0 ==> components_of(resolved(root, user_path)->Ok_0) == components_of(root)
            + parts(pieces(user_path)),
{
    let names = parts(pieces(user_path));
    lemma_parts_are_names_or_up(pieces(user_path));
    assert forall|i: int| 0 <= i < names.len() implies #[trigger] names[i] is Normal by {
        assert(components_of(user_path)[i + lead(user_path).len()] == names[i]);
    }
    if root.len() == 0 {
        lemma_components_empty();
        assert(root == Seq::<char>::empty());
        assert(joined(root, user_path) == user_path);
    } else {
        joined_components(root, user_path);
    }
}

proof fn lemma_parts_are_names_or_up(ps: Seq<Seq<char>>)
    ensures
        forall|i: int|
            0 <= i < parts(ps).len() ==> #[trigger] parts(ps)[i] is Normal || parts(ps)[i]
                == Part::ParentDir,
    decreases ps.len(),
{
    if ps.len() > 0 {
        lemma_parts_are_names_or_up(ps.drop_last());
    }
}

/// A path has one parent directory: what [`is_parent`] says is true of one text only.
pub proof fn parent_is_unique(path: Seq<char>, a: Seq<char>, b: Seq<char>)
    requires
        is_parent(a, path),
        is_parent(b, path),
    ensures
        a == b,
{
    if a.len() < b.len() {
        lemma_trimmed_is_shortest(b, a.len() as int);
        assert(b.take(a.len() as int) == a);
    } else if b.len() < a.len() {
        lemma_trimmed_is_shortest(a, b.len() as int);
        assert(a.take(b.len() as int) == b);
    } else {
        assert(a == b);
    }
}

/// No shorter start of a trimmed path has the same components.
proof fn lemma_trimmed_is_shortest(s: Seq<char>, n: int)
    requires
        trimmed(s),
        0 <= n < s.len(),
    ensures
        components_of(s.take(n)) != components_of(s),
{
    lemma_components_empty();
    lemma_components_slash();
    lemma_components_dot();
    let t = s.take(n);
    if n == 0 {
        assert(t == Seq::<char>::empty());
        if part(pieces(s).last()).len() > 0 {
            assert(components_of(s).last() == part(pieces(s).last())[0]);
        } else {
            assert(components_of(s).len() == 1);
        }
    } else {
        lemma_pieces_nonempty(s);
        assert(s != seq!['/'] && s != seq!['.']);
        let last = pieces(s).last();
        assert(part(last).len() == 1);
        assert(t[0] == s[0]);
        lemma_start_of_pieces(s, n);
        lemma_pieces_nonempty(t);
        let p = pieces(t);
        let q = pieces(s);
        if p.len() < q.len() {
            lemma_start_before_last_piece(s, n);
            assert(components_of(s).len() == lead(s).len() + parts(q.drop_last()).len() + 1);
        } else {
            assert(q.drop_last() == p.drop_last());
            let cut = p.last();
            assert(cut.len() < last.len() && cut == last.take(cut.len() as int));
            assert(part(cut) != part(last)) by {
                if part(cut) == part(last) {
                    assert(part(cut)[0] == part(last)[0]);
                    if cut == seq!['.', '.'] {
                        assert(last != seq!['.', '.']);
                    }
                }
            }
            let before = parts(q.drop_last());
            assert(parts(p) == before + part(cut));
            assert(parts(q) == before + part(last));
            if p.len() > 1 {
                assert(p[0] == p.drop_last()[0]);
                assert(q[0] == q.drop_last()[0]);
                assert(lead(t) == lead(s));
                if components_of(t) == components_of(s) {
                    assert(components_of(t).len() == lead(s).len() + before.len() + part(
                        cut,
                    ).len());
                    assert(components_of(t).last() == part(cut)[0]);
                    assert(components_of(s).last() == part(last)[0]);
                    assert(part(cut) == part(last));
                }
            } else {
                assert(before == Seq::<Part>::empty());
                assert(components_of(s).last() == part(last)[0]);
                if components_of(t) == components_of(s) {
                    if part(cut).len() > 0 {
                        assert(components_of(t).last() == part(cut)[0]);
                        assert(part(cut) == part(last));
                    } else {
                        assert(components_of(t) == lead(t));
                    }
                }
            }
        }
    }
}

/// How the pieces of the start of a text go with those of the whole.
proof fn lemma_start_of_pieces(s: Seq<char>, n: int)
    requires
        0 <= n <= s.len(),
    ensures
        pieces(s.take(n)).len() <= pieces(s).len(),
        pieces(s.take(n)).len() == pieces(s).len() ==> {
            let p = pieces(s.take(n));
            let q = pieces(s);
            &&& p.drop_last() == q.drop_last()
            &&& p.last().len() + (s.len() - n) == q.last().len()
            &&& p.last() == q.last().take(p.last().len() as int)
        },
    decreases s.len(),
{
    lemma_pieces_nonempty(s);
    if n == s.len() {
        assert(s.take(n) == s);
        assert(pieces(s).last().take(pieces(s).last().len() as int) == pieces(s).last());
    } else {
        let front = s.drop_last();
        lemma_start_of_pieces(front, n);
        lemma_pieces_nonempty(front);
        lemma_pieces_nonempty(s.take(n));
        assert(front.take(n) == s.take(n));
        let p = pieces(s.take(n));
        let q = pieces(front);
        if s.last() != '/' && p.len() == q.len() {
            let longer = q.last().push(s.last());
            assert(q.drop_last().push(longer).drop_last() == q.drop_last());
            assert(longer.take(p.last().len() as int) == q.last().take(p.last().len() as int));
        }
    }
}

/// One more character never makes for fewer components.
proof fn lemma_components_grow(s: Seq<char>)
    requires
        s.len() > 0,
    ensures
        components_of(s.drop_last()).len() <= components_of(s).len(),
{
    let front = s.drop_last();
    let q = pieces(front);
    lemma_components_empty();
    lemma_pieces_nonempty(front);
    if front.len() == 0 {
        assert(front == Seq::<char>::empty());
    } else {
        assert(s[0] == front[0]);
        if s.last() == '/' {
            assert(q.push(Seq::empty()).drop_last() == q);
            assert(q.push(Seq::empty())[0] == q[0]);
        } else {
            let longer = q.last().push(s.last());
            let after = q.drop_last().push(longer);
            assert(pieces(s) == after);
            assert(after.drop_last() == q.drop_last());
            assert(longer.len() > 0);
            assert(part(longer).len() >= part(q.last()).len()) by {
                if longer == seq!['.'] {
                    assert(q.last().len() == 0);
                }
            }
            if q.len() > 1 {
                assert(after[0] == q[0]);
            } else {
                assert(after[0] == longer);
                if q[0] == seq!['.'] {
                    assert(longer.len() == 2);
                    assert(longer != seq!['.']);
                    assert(part(longer).len() == 1);
                    assert(part(q[0]).len() == 0);
                }
            }
        }
    }
}

/// The start of a path has no more components than there are before the last piece, if
/// it ends before that.
proof fn lemma_start_before_last_piece(s: Seq<char>, n: int)
    requires
        0 < n < s.len(),
        pieces(s.take(n)).len() < pieces(s).len(),
    ensures
        components_of(s.take(n)).len() <= lead(s).len() + parts(pieces(s).drop_last()).len(),
    decreases s.len(),
{
    let front = s.drop_last();
    let q = pieces(front);
    lemma_pieces_nonempty(front);
    lemma_pieces_nonempty(s.take(n));
    assert(s[0] == front[0]);
    assert(front.take(n) == s.take(n));
    if s.last() == '/' {
        lemma_start_has_fewer_components(front, n);
        assert(q.push(Seq::empty()).drop_last() == q);
        assert(q.push(Seq::empty())[0] == q[0]);
        assert(lead(s) == lead(front));
    } else {
        assert(n < front.len()) by {
            if n == front.len() {
                assert(s.take(n) == front);
            }
        }
        lemma_start_before_last_piece(front, n);
        assert(pieces(s).drop_last() == q.drop_last());
        assert(q.len() > 1);
        assert(pieces(s)[0] == q[0]);
        assert(lead(s) == lead(front));
    }
}

proof fn lemma_start_has_fewer_components(s: Seq<char>, n: int)
    requires
        0 <= n <= s.len(),
    ensures
        components_of(s.take(n)).len() <= components_of(s).len(),
    decreases s.len(),
{
    if n == s.len() {
        assert(s.take(n) == s);
    } else {
        lemma_components_grow(s);
        lemma_start_has_fewer_components(s.drop_last(), n);
        assert(s.drop_last().take(n) == s.take(n));
    }
}

/// Some texts with a slash between each and the next.
pub open spec fn slashed(texts: Seq<Seq<char>>) -> Seq<char>
    decreases texts.len(),
{
    if texts.len() == 0 {
        seq![]
    } else if texts.len() == 1 {
        texts[0]
    } else {
        slashed(texts.drop_last()).push('/') + texts.last()
    }
}

/// The pieces of a text make it up, with a slash between each and the next, and hold no
/// slash themselves.
pub proof fn pieces_make_up_the_text(s: Seq<char>)
    ensures
        pieces(s).len() > 0,
        slashed(pieces(s)) == s,
        forall|i: int| 0 <= i < pieces(s).len() ==> !(#[trigger] pieces(s)[i]).contains('/'),
    decreases s.len(),
{
    lemma_pieces_nonempty(s);
    if s.len() > 0 {
        let front = s.drop_last();
        let p = pieces(front);
        pieces_make_up_the_text(front);
        if s.last() == '/' {
            let q = p.push(Seq::empty());
            assert(q.drop_last() == p);
            assert(slashed(q) == slashed(p).push('/') + Seq::<char>::empty());
            assert(slashed(q) == s);
            assert forall|i: int| 0 <= i < q.len() implies !(#[trigger] q[i]).contains('/') by {
                if i < p.len() {
                    assert(q[i] == p[i]);
                }
            }
        } else {
            let longer = p.last().push(s.last());
            let q = p.drop_last().push(longer);
            assert(q.drop_last() == p.drop_last());
            if p.len() == 1 {
                assert(slashed(p) == p[0]);
            } else {
                assert(slashed(p.drop_last()).push('/') + longer == (slashed(
                    p.drop_last(),
                ).push('/') + p.last()).push(s.last()));
            }
            assert(slashed(q) == s);
            assert forall|i: int| 0 <= i < q.len() implies !(#[trigger] q[i]).contains('/') by {
                if i < p.len() - 1 {
                    assert(q[i] == p[i]);
                } else {
                    assert(!p.last().contains('/'));
                    if longer.contains('/') {
                        let j = choose|j: int| 0 <= j < longer.len() && longer[j] == '/';
                        assert(p.last()[j] == '/');
                    }
                }
            }
        }
    }
}

/// Texts without a slash, put together with slashes, are the pieces of what they make up.
pub proof fn slashed_texts_are_pieces(texts: Seq<Seq<char>>)
    requires
        texts.len() > 0,
        forall|i: int| 0 <= i < texts.len() ==> !(#[trigger] texts[i]).contains('/'),
    ensures
        pieces(slashed(texts)) == texts,
    decreases texts.len(),
{
    lemma_one_piece(texts.last());
    if texts.len() > 1 {
        let front = texts.drop_last();
        assert forall|i: int| 0 <= i < front.len() implies !(#[trigger] front[i]).contains('/') by {
            assert(front[i] == texts[i]);
        }
        slashed_texts_are_pieces(front);
        lemma_pieces_across_slash(slashed(front), texts.last());
        assert(front + seq![texts.last()] == texts);
    } else {
        assert(texts == seq![texts.last()]);
    }
}

proof fn lemma_one_piece(s: Seq<char>)
    requires
        !s.contains('/'),
    ensures
        pieces(s) == seq![s],
{
    let none = Seq::<char>::empty();
    lemma_pieces_of_longer(none, s);
    assert(none + s == s);
    assert(pieces(none) == seq![none]);
    assert(pieces(none).drop_last().push(pieces(none).last() + s) == seq![s]);
}

/// Whether a `..` stands at `i`, from one slash or end of `s` to another.
pub open spec fn goes_up_at(s: Seq<char>, i: int) -> bool {
    &&& 0 <= i <= s.len() - 2
    &&& s[i] == '.'
    &&& s[i + 1] == '.'
    &&& i == 0 || s[i - 1] == '/'
    &&& i + 2 == s.len() || s[i + 2] == '/'
}

/// Whether a `..` stands anywhere between the slashes of `s`.
pub open spec fn goes_up(s: Seq<char>) -> bool {
    exists|i: int| #[trigger] goes_up_at(s, i)
}

/// A client's path is allowed exactly if it is not empty, holds no NUL, does not start with
/// a slash and has no `..` between its slashes, however deep and long it is. It then leads
/// to the root, a slash unless the root ends with one or is empty, and the path as it is.
pub proof fn allowed_exactly_if_safe(
    root: &str,
    user_path: &str,
    r: Result<String, PathError>,
)
    requires
        call_ensures(resolve_safe, (root, user_path), r),
    ensures
        r is Ok <==> user_path@.len() > 0 && !user_path@.contains('\0') && user_path@[0] != '/'
            && !goes_up(user_path@),
        r matches Ok(target) ==> target@ == root@ + (if root@.len() == 0 || root@.last() == '/' {
            Seq::<char>::empty()
        } else {
            seq!['/']
        }) + user_path@,
        r matches Err(e) ==> e == (if user_path@.len() == 0 {
            PathError::Empty
        } else if user_path@.contains('\0') {
            PathError::Nul
        } else if user_path@[0] == '/' {
            PathError::Absolute
        } else {
            PathError::ParentDir
        }),
{
    lemma_resolved_exactly(root@, user_path@);
}

pub(crate) proof fn lemma_resolved_exactly(root: Seq<char>, user_path: Seq<char>)
    ensures
        resolved(root, user_path) is Ok <==> user_path.len() > 0 && !user_path.contains('\0')
            && user_path[0] != '/' && !goes_up(user_path),
        resolved(root, user_path) matches Ok(target) ==> target == root + (if root.len() == 0
            || root.last() == '/' {
            Seq::<char>::empty()
        } else {
            seq!['/']
        }) + user_path,
{
    lemma_up_is_a_component(user_path);
    if resolved(root, user_path) is Ok {
        if root.len() == 0 || root.last() == '/' {
            assert(root + Seq::<char>::empty() + user_path == root + user_path);
        } else {
            assert(root + seq!['/'] + user_path == root.push('/') + user_path);
        }
    }
}

proof fn lemma_up_is_a_component(s: Seq<char>)
    ensures
        components_of(s).contains(Part::ParentDir) <==> goes_up(s),
{
    lemma_up_is_a_piece(s);
    lemma_up_is_a_part(pieces(s));
    let c = components_of(s);
    let p = parts(pieces(s));
    if c.contains(Part::ParentDir) {
        let i = choose|i: int| 0 <= i < c.len() && c[i] == Part::ParentDir;
        assert(i >= lead(s).len());
        assert(p[i - lead(s).len()] == Part::ParentDir);
    }
    if p.contains(Part::ParentDir) {
        let i = choose|i: int| 0 <= i < p.len() && p[i] == Part::ParentDir;
        assert(c[i + lead(s).len()] == Part::ParentDir);
    }
}

proof fn lemma_up_is_a_part(ps: Seq<Seq<char>>)
    ensures
        parts(ps).contains(Part::ParentDir) <==> ps.contains(seq!['.', '.']),
    decreases ps.len(),
{
    let up = seq!['.', '.'];
    if ps.len() > 0 {
        let front = ps.drop_last();
        let last = ps.last();
        lemma_up_is_a_part(front);
        let a = parts(front);
        let b = part(last);
        if parts(ps).contains(Part::ParentDir) {
            let i = choose|i: int| 0 <= i < parts(ps).len() && parts(ps)[i] == Part::ParentDir;
            if i < a.len() {
                assert(a[i] == Part::ParentDir);
                let j = choose|j: int| 0 <= j < front.len() && front[j] == up;
                assert(ps[j] == up);
            } else {
                assert(b[i - a.len()] == Part::ParentDir);
                assert(last == up);
                assert(ps[ps.len() - 1] == up);
            }
        }
        if ps.contains(up) {
            let j = choose|j: int| 0 <= j < ps.len() && ps[j] == up;
            if j < front.len() {
                assert(front[j] == up);
                let i = choose|i: int| 0 <= i < a.len() && a[i] == Part::ParentDir;
                assert(parts(ps)[i] == Part::ParentDir);
            } else {
                assert(last == up);
                assert(up.len() == 2 && seq!['.'].len() == 1);
                assert(b == seq![Part::ParentDir]);
                assert(parts(ps)[a.len() as int] == Part::ParentDir);
            }
        }
    }
}

proof fn lemma_up_is_a_piece(s: Seq<char>)
    ensures
        pieces(s).contains(seq!['.', '.']) <==> goes_up(s),
    decreases s.len(),
{
    let up = seq!['.', '.'];
    if !s.contains('/') {
        lemma_one_piece(s);
        if pieces(s).contains(up) {
            assert(s == up);
            assert(goes_up_at(s, 0));
        }
        if goes_up(s) {
            let i = choose|i: int| #[trigger] goes_up_at(s, i);
            assert(i == 0);
            assert(s.len() == 2);
            assert(s == up);
            assert(pieces(s)[0] == up);
        }
    } else {
        let m = choose|m: int| 0 <= m < s.len() && s[m] == '/';
        let a = s.take(m);
        let b = s.skip(m + 1);
        assert(a.push('/') + b == s);
        lemma_pieces_across_slash(a, b);
        lemma_up_is_a_piece(a);
        lemma_up_is_a_piece(b);
        let p = pieces(a);
        let q = pieces(b);
        if pieces(s).contains(up) {
            let k = choose|k: int| 0 <= k < pieces(s).len() && pieces(s)[k] == up;
            if k < p.len() {
                assert(p[k] == up);
                let i = choose|i: int| #[trigger] goes_up_at(a, i);
                assert(goes_up_at(s, i));
            } else {
                assert(q[k - p.len()] == up);
                let i = choose|i: int| #[trigger] goes_up_at(b, i);
                assert(goes_up_at(s, m + 1 + i));
            }
        }
        if goes_up(s) {
            let i = choose|i: int| #[trigger] goes_up_at(s, i);
            assert(i != m && i + 1 != m);
            if i < m {
                assert(goes_up_at(a, i));
                let k = choose|k: int| 0 <= k < p.len() && p[k] == up;
                assert(pieces(s)[k] == up);
            } else {
                assert(goes_up_at(b, i - m - 1));
                let k = choose|k: int| 0 <= k < q.len() && q[k] == up;
                assert(pieces(s)[p.len() + k] == up);
            }
        }
    }
}

/// Whether `s` can be the name of a file or a directory.
pub open spec fn is_name(s: Seq<char>) -> bool {
    &&& s.len() > 0
    &&& !s.contains('/')
    &&& !(s.len() == 1 && s[0] == '.')
    &&& !(s.len() == 2 && s[0] == '.' && s[1] == '.')
}

/// Whether there are names only.
pub open spec fn all_names(names: Seq<Seq<char>>) -> bool {
    forall|i: int| 0 <= i < names.len() ==> is_name(#[trigger] names[i])
}

/// Names as components.
pub open spec fn as_components(names: Seq<Seq<char>>) -> Seq<Part> {
    names.map_values(|name: Seq<char>| Part::Normal(name))
}

/// The components of names with slashes between them are the names, however many there
/// are and however long; with a slash before them, the root and then the names.
pub proof fn names_are_components(names: Seq<Seq<char>>)
    requires
        all_names(names),
    ensures
        components_of(slashed(names)) == as_components(names),
        components_of(seq!['/'] + slashed(names)) == seq![Part::RootDir] + as_components(names),
{
    lemma_components_empty();
    lemma_components_slash();
    if names.len() == 0 {
        assert(slashed(names) == Seq::<char>::empty());
        assert(seq!['/'] + slashed(names) == seq!['/']);
        assert(as_components(names) == Seq::<Part>::empty());
        assert(seq![Part::RootDir] + as_components(names) == seq![Part::RootDir]);
    } else {
        assert forall|i: int| 0 <= i < names.len() implies !(#[trigger] names[i]).contains('/') by {
            assert(is_name(names[i]));
        }
        slashed_texts_are_pieces(names);
        lemma_parts_of_names(names);
        let s = slashed(names);
        lemma_names_are_relative(names);
        assert(is_name(names[0]));
        assert(pieces(s)[0] == names[0]);
        assert(names[0] != seq!['.']) by {
            assert(seq!['.'].len() == 1 && seq!['.'][0] == '.');
        }
        assert(lead(s) == Seq::<Part>::empty());
        assert(components_of(s) == as_components(names));
        joined_components(seq!['/'], s);
        assert(joined(seq!['/'], s) == seq!['/'] + s);
    }
}

proof fn lemma_names_are_relative(names: Seq<Seq<char>>)
    requires
        all_names(names),
        names.len() > 0,
    ensures
        slashed(names).len() > 0,
        slashed(names)[0] != '/',
        slashed(names).last() != '/',
    decreases names.len(),
{
    assert(is_name(names.last()));
    assert(names.last()[0] != '/' && names.last().last() != '/') by {
        let n = names.last();
        assert(n.contains(n[0]));
        assert(n.contains(n[n.len() - 1]));
    }
    if names.len() > 1 {
        let front = names.drop_last();
        assert forall|i: int| 0 <= i < front.len() implies is_name(#[trigger] front[i]) by {
            assert(front[i] == names[i]);
        }
        lemma_names_are_relative(front);
        assert(slashed(names)[0] == slashed(front)[0]);
    }
}

proof fn lemma_parts_of_names(names: Seq<Seq<char>>)
    requires
        all_names(names),
    ensures
        parts(names) == as_components(names),
    decreases names.len(),
{
    if names.len() > 0 {
        let front = names.drop_last();
        assert forall|i: int| 0 <= i < front.len() implies is_name(#[trigger] front[i]) by {
            assert(front[i] == names[i]);
        }
        lemma_parts_of_names(front);
        let last = names.last();
        assert(is_name(last));
        assert(last != seq!['.'] && last != seq!['.', '.']) by {
            assert(seq!['.'].len() == 1 && seq!['.'][0] == '.');
            assert(seq!['.', '.'].len() == 2 && seq!['.', '.'][0] == '.' && seq!['.', '.'][1]
                == '.');
        }
        assert(parts(names) == as_components(front) + seq![Part::Normal(last)]);
        assert(as_components(front) + seq![Part::Normal(last)] == as_components(names));
    } else {
        assert(parts(names) == as_components(names));
    }
}

/// One more piece after a slash adds one component to a path: none if it is empty or `.`,
/// the parent if it is `..`, and else its name.
pub proof fn one_more_piece(s: Seq<char>, piece: Seq<char>)
    requires
        s.len() > 0,
        !piece.contains('/'),
    ensures
        piece.len() == 0 || (piece.len() == 1 && piece[0] == '.') ==> components_of(
            s.push('/') + piece,
        ) == components_of(s),
        piece.len() == 2 && piece[0] == '.' && piece[1] == '.' ==> components_of(
            s.push('/') + piece,
        ) == components_of(s).push(Part::ParentDir),
        is_name(piece) ==> components_of(s.push('/') + piece) == components_of(s).push(
            Part::Normal(piece),
        ),
{
    let dot = seq!['.'];
    let up = seq!['.', '.'];
    let base = s.push('/');
    assert(!absolute(piece)) by {
        if absolute(piece) {
            assert(piece.contains(piece[0]));
        }
    }
    lemma_one_piece(piece);
    joined_components(base, piece);
    joined_components(s, Seq::empty());
    lemma_one_piece(Seq::empty());
    reveal_with_fuel(parts, 2);
    assert(seq![piece].drop_last() == Seq::<Seq<char>>::empty());
    assert(seq![Seq::<char>::empty()].drop_last() == Seq::<Seq<char>>::empty());
    assert(parts(seq![piece]) == part(piece));
    assert(parts(seq![Seq::<char>::empty()]) == Seq::<Part>::empty());
    assert(components_of(base) == components_of(s)) by {
        if s.last() == '/' {
            let stem = s.drop_last();
            assert(stem.push('/') == s);
            lemma_pieces_across_slash(s, Seq::empty());
            assert(s.push('/') + Seq::<char>::empty() == base);
            lemma_parts_concat(pieces(s), seq![Seq::<char>::empty()]);
            assert(parts(pieces(base)) == parts(pieces(s)));
            lemma_pieces_nonempty(s);
            assert(base[0] == s[0]);
            assert(pieces(base)[0] == pieces(s)[0]);
            assert(lead(base) == lead(s));
        } else {
            assert(joined(s, Seq::empty()) == base);
            assert(components_of(s) + Seq::<Part>::empty() == components_of(s));
        }
    }
    assert(joined(base, piece) == base + piece);
    assert(components_of(base + piece) == components_of(s) + part(piece));
    if piece.len() == 0 || (piece.len() == 1 && piece[0] == '.') {
        if piece.len() == 1 {
            assert(piece == dot);
        }
        assert(components_of(s) + part(piece) == components_of(s));
    }
    if piece.len() == 2 && piece[0] == '.' && piece[1] == '.' {
        assert(piece == up);
        assert(dot.len() == 1);
        assert(components_of(s) + part(piece) == components_of(s).push(Part::ParentDir));
    }
    if is_name(piece) {
        assert(piece != dot && piece != up) by {
            assert(dot.len() == 1 && dot[0] == '.');
            assert(up.len() == 2 && up[0] == '.' && up[1] == '.');
        }
        assert(components_of(s) + part(piece) == components_of(s).push(Part::Normal(piece)));
    }
}

/// The parent of a path made of names is the path of all names but the last, from the root
/// if the path is.
pub proof fn parent_is_all_but_the_last_name(
    names: Seq<Seq<char>>,
    rooted: bool,
    path: &str,
    r: Option<String>,
)
    requires
        names.len() > 0,
        all_names(names),
        path@ == (if rooted {
            seq!['/']
        } else {
            Seq::<char>::empty()
        }) + slashed(names),
        call_ensures(parent, (path,), r),
    ensures
        r matches Some(dir) && dir@ == (if rooted {
            seq!['/']
        } else {
            Seq::<char>::empty()
        }) + slashed(names.drop_last()),
{
    let front = names.drop_last();
    assert forall|i: int| 0 <= i < front.len() implies is_name(#[trigger] front[i]) by {
        assert(front[i] == names[i]);
    }
    names_are_components(names);
    names_are_components(front);
    let start = if rooted {
        seq!['/']
    } else {
        Seq::<char>::empty()
    };
    assert(Seq::<char>::empty() + slashed(names) == slashed(names));
    assert(Seq::<char>::empty() + slashed(front) == slashed(front));
    let dir = start + slashed(front);
    let c = components_of(path@);
    assert(as_components(names).last() == Part::Normal(names.last()));
    assert(c.last() == Part::Normal(names.last()));
    assert(has_parent(path@));
    assert(as_components(names).drop_last() == as_components(front));
    assert(components_of(dir) == c.drop_last());
    assert(dir.is_prefix_of(path@)) by {
        if front.len() > 0 {
            assert(slashed(names) == slashed(front).push('/') + names.last());
            assert(path@ == (dir.push('/') + names.last()));
        } else {
            assert(slashed(front) == Seq::<char>::empty());
        }
        assert(path@.take(dir.len() as int) == dir);
    }
    assert(trimmed(dir)) by {
        if front.len() == 0 {
            assert(dir == start);
        } else {
            assert forall|i: int| 0 <= i < front.len() implies !(#[trigger] front[i]).contains(
                '/',
            ) by {
                assert(is_name(front[i]));
            }
            slashed_texts_are_pieces(front);
            let last = front.last();
            assert(is_name(last));
            assert(last != seq!['.']) by {
                assert(seq!['.'].len() == 1 && seq!['.'][0] == '.');
            }
            assert(part(last).len() > 0);
            if rooted {
                lemma_pieces_across_slash(Seq::empty(), slashed(front));
                assert(Seq::<char>::empty().push('/') + slashed(front) == dir);
                assert(pieces(dir).last() == last);
            } else {
                assert(dir == slashed(front));
            }
        }
    }
    assert(is_parent(dir, path@));
    parent_is_unique(path@, dir, r->Some_0@);
}

/// To join is to put a slash between two paths unless the first ends with one or is empty;
/// but a path from the root stands for itself.
pub proof fn joining_puts_a_slash_between(base: &str, path: &str, r: String)
    requires
        call_ensures(join, (base, path), r),
    ensures
        path@.len() > 0 && path@[0] == '/' ==> r@ == path@,
        !(path@.len() > 0 && path@[0] == '/') ==> r@ == base@ + (if base@.len() == 0
            || base@.last() == '/' {
            Seq::<char>::empty()
        } else {
            seq!['/']
        }) + path@,
{
    if !absolute(path@) {
        if base@.len() == 0 || base@.last() == '/' {
            assert(base@ + Seq::<char>::empty() + path@ == base@ + path@);
        } else {
            assert(base@ + seq!['/'] + path@ == base@.push('/') + path@);
        }
    }
}

} // verus!
