//! Paths as byte strings, read as a sequence of components.
//!
//! Two spellings of a path that have the same components are the same path:
//! repeated separators, trailing separators and inner `.` segments carry no
//! meaning. Which bytes separate components, and whether a path can start with
//! a volume prefix, depends on the platform the path belongs to.

use vstd::prelude::*;
use vstd::utf8::{encode_utf8, is_ascii_chars, valid_utf8};

use crate::order::{bytes_order, compare_bytes, is_total_order, lexicographic, Order};
use crate::order::{lemma_bytes_order_total, lemma_lexicographic_flip, lemma_lexicographic_total};
use crate::text::{from_utf8_lossy, lossy_text};

verus! {

/// The platform whose path syntax applies.
#[derive(Debug, Clone, Copy, PartialEq, Eq, Structural)]
pub enum Platform {
    /// `/` separates; names are told apart byte by byte.
    Unix,
    /// `/` and `\` separate; paths can start with a volume prefix; whether two
    /// paths lead to one place is told without regard to ASCII case.
    Windows,
}

/// One component of a path, as a mathematical value.
#[verifier::ext_equal]
pub enum ComponentView {
    Prefix(Seq<u8>),
    RootDir,
    CurDir,
    ParentDir,
    Normal(Seq<u8>),
}

/// One component of a path.
#[derive(Debug)]
pub enum Component {
    /// A volume prefix, such as `C:`.
    Prefix(Vec<u8>),
    /// The separator that makes a path start at a root.
    RootDir,
    /// A `.` that starts a relative path.
    CurDir,
    /// `..`
    ParentDir,
    /// A name.
    Normal(Vec<u8>),
}

impl View for Component {
    type V = ComponentView;

    open spec fn view(&self) -> ComponentView {
        match self {
            Component::Prefix(text) => ComponentView::Prefix(text@),
            Component::RootDir => ComponentView::RootDir,
            Component::CurDir => ComponentView::CurDir,
            Component::ParentDir => ComponentView::ParentDir,
            Component::Normal(text) => ComponentView::Normal(text@),
        }
    }
}

/// A path as a mathematical value: the text as it was written.
#[verifier::ext_equal]
pub struct PathView {
    pub platform: Platform,
    pub text: Seq<u8>,
}

/// Which of the two separator bytes end a component.
#[derive(Debug, Clone, Copy, PartialEq, Eq, Structural)]
pub struct Separators {
    pub slash: bool,
    pub backslash: bool,
}

pub open spec fn separates(s: Separators, b: u8) -> bool {
    (s.slash && b == 0x2f) || (s.backslash && b == 0x5c)
}

/// The separators of ordinary paths.
pub open spec fn plain_separators(platform: Platform) -> Separators {
    Separators { slash: true, backslash: platform is Windows }
}

/// The separators of a Windows path whose prefix switches interpretation off.
pub open spec fn verbatim_separators() -> Separators {
    Separators { slash: false, backslash: true }
}

/// Where the run of non-separators that starts at `from` ends.
pub open spec fn name_end(t: Seq<u8>, from: int, s: Separators) -> int
    decreases t.len() - from,
{
    if from >= t.len() {
        t.len() as int
    } else if separates(s, t[from]) {
        from
    } else {
        name_end(t, from + 1, s)
    }
}

/// Where a `server\share` pair that starts at `from` ends; an empty share
/// leaves the server alone.
pub open spec fn share_end(t: Seq<u8>, from: int, s: Separators) -> int {
    let server = name_end(t, from, s);
    let share = name_end(t, server + 1, s);
    if share > server + 1 {
        share
    } else {
        server
    }
}

pub open spec fn is_ascii_letter(b: u8) -> bool {
    (0x41 <= b && b <= 0x5a) || (0x61 <= b && b <= 0x7a)
}

/// A drive letter and its colon stand at `i`.
pub open spec fn drive_at(t: Seq<u8>, i: int) -> bool {
    i + 1 < t.len() && is_ascii_letter(t[i]) && t[i + 1] == 0x3a
}

/// The text starts with two separators, as every volume prefix but a drive does.
pub open spec fn starts_with_two_separators(t: Seq<u8>) -> bool {
    let s = plain_separators(Platform::Windows);
    t.len() >= 2 && separates(s, t[0]) && separates(s, t[1])
}

/// The text starts with `\\?\`.
pub open spec fn starts_verbatim(t: Seq<u8>) -> bool {
    t.len() >= 4 && t[0] == 0x5c && t[1] == 0x5c && t[2] == 0x3f && t[3] == 0x5c
}

/// The length of the volume prefix of a path; 0 where it has none.
pub open spec fn prefix_len(v: PathView) -> int {
    let t = v.text;
    let plain = plain_separators(Platform::Windows);
    let verbatim = verbatim_separators();
    if v.platform is Unix {
        0
    } else if starts_verbatim(t) {
        if t.len() >= 8 && t[4] == 0x55 && t[5] == 0x4e && t[6] == 0x43 && separates(plain, t[7]) {
            share_end(t, 8, verbatim)
        } else if drive_at(t, 4) && (t.len() == 6 || separates(plain, t[6])) {
            6
        } else {
            name_end(t, 4, verbatim)
        }
    } else if starts_with_two_separators(t) {
        if t.len() >= 4 && t[2] == 0x2e && separates(plain, t[3]) {
            name_end(t, 4, plain)
        } else {
            let server = name_end(t, 2, plain);
            if server > 2 && share_end(t, 2, plain) > server {
                share_end(t, 2, plain)
            } else {
                0
            }
        }
    } else if drive_at(t, 0) {
        2
    } else {
        0
    }
}

pub open spec fn is_verbatim(v: PathView) -> bool {
    v.platform is Windows && starts_verbatim(v.text)
}

pub open spec fn separators_of(v: PathView) -> Separators {
    if is_verbatim(v) {
        verbatim_separators()
    } else {
        plain_separators(v.platform)
    }
}

/// The path starts at a root, be it written or implied by its prefix.
pub open spec fn starts_at_root(v: PathView) -> bool {
    let n = prefix_len(v);
    ||| n < v.text.len() && separates(plain_separators(v.platform), v.text[n])
    ||| n > 0 && starts_with_two_separators(v.text) && !is_verbatim(v)
}

/// The pieces of a text between separators, empty ones too.
pub open spec fn pieces(t: Seq<u8>, s: Separators) -> Seq<Seq<u8>>
    decreases t.len(),
{
    if t.len() == 0 {
        seq![Seq::<u8>::empty()]
    } else {
        let before = pieces(t.drop_last(), s);
        if separates(s, t.last()) {
            before.push(Seq::<u8>::empty())
        } else {
            before.drop_last().push(before.last().push(t.last()))
        }
    }
}

/// The component that a piece stands for, if any: an empty piece stands for
/// none, and `.` for one only where it counts.
pub open spec fn component_of(piece: Seq<u8>, dot_counts: bool) -> Option<ComponentView> {
    if piece.len() == 0 {
        None
    } else if piece =~= seq![0x2eu8] {
        if dot_counts {
            Some(ComponentView::CurDir)
        } else {
            None
        }
    } else if piece =~= seq![0x2eu8, 0x2eu8] {
        Some(ComponentView::ParentDir)
    } else {
        Some(ComponentView::Normal(piece))
    }
}

/// The components that a run of pieces stands for. A `.` counts at the very
/// start, if `first_dot` says so, and everywhere, if `every_dot` does.
pub open spec fn named_pieces(
    ps: Seq<Seq<u8>>,
    first_dot: bool,
    every_dot: bool,
) -> Seq<ComponentView>
    decreases ps.len(),
{
    if ps.len() == 0 {
        Seq::empty()
    } else {
        let before = named_pieces(ps.drop_last(), first_dot, every_dot);
        match component_of(ps.last(), every_dot || (first_dot && ps.len() == 1)) {
            None => before,
            Some(c) => before.push(c),
        }
    }
}

/// The components before the named ones: a prefix and a root.
pub open spec fn head_components(v: PathView) -> Seq<ComponentView> {
    let n = prefix_len(v);
    let prefix = if n > 0 {
        seq![ComponentView::Prefix(v.text.take(n))]
    } else {
        Seq::empty()
    };
    if starts_at_root(v) {
        prefix.push(ComponentView::RootDir)
    } else {
        prefix
    }
}

/// The components of a path.
pub open spec fn components_of(v: PathView) -> Seq<ComponentView> {
    let n = prefix_len(v);
    head_components(v) + named_pieces(
        pieces(v.text.skip(n), separators_of(v)),
        n == 0,
        is_verbatim(v),
    )
}


proof fn lemma_name_end(t: Seq<u8>, from: int, s: Separators)
    requires
        0 <= from,
    ensures
        name_end(t, from, s) <= t.len(),
        from <= t.len() ==> from <= name_end(t, from, s),
        from > t.len() ==> name_end(t, from, s) == t.len(),
    decreases t.len() - from,
{
    if from < t.len() && !separates(s, t[from]) {
        lemma_name_end(t, from + 1, s);
    }
}

/// A volume prefix lies within its path.
pub proof fn lemma_prefix_len(v: PathView)
    ensures
        0 <= prefix_len(v) <= v.text.len(),
{
    let t = v.text;
    let plain = plain_separators(Platform::Windows);
    let verbatim = verbatim_separators();
    assert forall|from: int, s: Separators| 0 <= from <= t.len() implies from <= #[trigger] name_end(
        t,
        from,
        s,
    ) <= t.len() by {
        lemma_name_end(t, from, s);
    }
    assert forall|from: int, s: Separators| 0 <= from implies #[trigger] name_end(t, from, s)
        <= t.len() by {
        lemma_name_end(t, from, s);
    }
    if t.len() >= 8 {
        assert(8 <= name_end(t, 8, verbatim) <= t.len());
    }
}

fn separator(s: Separators, b: u8) -> (r: bool)
    ensures
        r == separates(s, b),
{
    (s.slash && b == 0x2f) || (s.backslash && b == 0x5c)
}

fn separators_for(platform: Platform) -> (s: Separators)
    ensures
        s == plain_separators(platform),
{
    match platform {
        Platform::Unix => Separators { slash: true, backslash: false },
        Platform::Windows => Separators { slash: true, backslash: true },
    }
}

fn find_name_end(t: &Vec<u8>, from: usize, s: Separators) -> (r: usize)
    ensures
        r == name_end(t@, from as int, s),
        r <= t.len(),
        from <= t.len() ==> from <= r,
{
    proof {
        lemma_name_end(t@, from as int, s);
    }
    if from >= t.len() {
        return t.len();
    }
    let mut i: usize = from;
    while i < t.len() && !separator(s, t[i])
        invariant
            from <= i <= t.len(),
            name_end(t@, from as int, s) == name_end(t@, i as int, s),
        decreases t.len() - i,
    {
        i += 1;
    }
    i
}

fn find_share_end(t: &Vec<u8>, from: usize, s: Separators) -> (r: usize)
    requires
        from <= t.len(),
    ensures
        r == share_end(t@, from as int, s),
        r <= t.len(),
{
    let server = find_name_end(t, from, s);
    if server == t.len() {
        proof {
            lemma_name_end(t@, server + 1, s);
        }
        return server;
    }
    let share = find_name_end(t, server + 1, s);
    if share > server + 1 {
        share
    } else {
        server
    }
}

fn has_drive(t: &Vec<u8>, i: usize) -> (r: bool)
    requires
        i < 8,
    ensures
        r == drive_at(t@, i as int),
{
    i + 1 < t.len() && ((0x41 <= t[i] && t[i] <= 0x5a) || (0x61 <= t[i] && t[i] <= 0x7a)) && t[i
        + 1] == 0x3a
}

fn begins_verbatim(t: &Vec<u8>) -> (r: bool)
    ensures
        r == starts_verbatim(t@),
{
    t.len() >= 4 && t[0] == 0x5c && t[1] == 0x5c && t[2] == 0x3f && t[3] == 0x5c
}

fn begins_with_two_separators(t: &Vec<u8>) -> (r: bool)
    ensures
        r == starts_with_two_separators(t@),
{
    let s = separators_for(Platform::Windows);
    t.len() >= 2 && separator(s, t[0]) && separator(s, t[1])
}

fn find_prefix(platform: Platform, t: &Vec<u8>) -> (r: usize)
    ensures
        r == prefix_len(PathView { platform, text: t@ }),
        r <= t.len(),
{
    proof {
        lemma_prefix_len(PathView { platform, text: t@ });
    }
    if platform == Platform::Unix {
        return 0;
    }
    let plain = separators_for(Platform::Windows);
    let verbatim = Separators { slash: false, backslash: true };
    if begins_verbatim(t) {
        if t.len() >= 8 && t[4] == 0x55 && t[5] == 0x4e && t[6] == 0x43 && separator(plain, t[7]) {
            find_share_end(t, 8, verbatim)
        } else if has_drive(t, 4) && (t.len() == 6 || separator(plain, t[6])) {
            6
        } else {
            find_name_end(t, 4, verbatim)
        }
    } else if begins_with_two_separators(t) {
        if t.len() >= 4 && t[2] == 0x2e && separator(plain, t[3]) {
            find_name_end(t, 4, plain)
        } else {
            let server = find_name_end(t, 2, plain);
            let share = find_share_end(t, 2, plain);
            if server > 2 && share > server {
                share
            } else {
                0
            }
        }
    } else if has_drive(t, 0) {
        2
    } else {
        0
    }
}

/// The views of a list of components.
pub open spec fn component_views(cs: Seq<Component>) -> Seq<ComponentView> {
    cs.map_values(|c: Component| c@)
}

fn piece_component(piece: Vec<u8>, dot_counts: bool) -> (r: Option<Component>)
    ensures
        match r {
            None => component_of(piece@, dot_counts) is None,
            Some(c) => component_of(piece@, dot_counts) == Some(c@),
        },
{
    if piece.len() == 0 {
        None
    } else if piece.len() == 1 && piece[0] == 0x2e {
        assert(piece@ =~= seq![0x2eu8]);
        if dot_counts {
            Some(Component::CurDir)
        } else {
            None
        }
    } else if piece.len() == 2 && piece[0] == 0x2e && piece[1] == 0x2e {
        assert(piece@ =~= seq![0x2eu8, 0x2eu8]);
        assert(piece@.len() != seq![0x2eu8].len());
        Some(Component::ParentDir)
    } else {
        assert(!(piece@ =~= seq![0x2eu8])) by {
            if piece@ =~= seq![0x2eu8] {
                assert(piece@[0] == 0x2e);
            }
        }
        assert(!(piece@ =~= seq![0x2eu8, 0x2eu8])) by {
            if piece@ =~= seq![0x2eu8, 0x2eu8] {
                assert(piece@[0] == 0x2e && piece@[1] == 0x2e);
            }
        }
        Some(Component::Normal(piece))
    }
}

fn push_piece(
    cs: &mut Vec<Component>,
    piece: Vec<u8>,
    dot_counts: bool,
    Ghost(before): Ghost<Seq<Seq<u8>>>,
    Ghost(head): Ghost<Seq<ComponentView>>,
    Ghost(first_dot): Ghost<bool>,
    Ghost(every_dot): Ghost<bool>,
)
    requires
        component_views(old(cs)@) == head + named_pieces(before, first_dot, every_dot),
        dot_counts == (every_dot || (first_dot && before.len() == 0)),
    ensures
        component_views(final(cs)@) == head + named_pieces(
            before.push(piece@),
            first_dot,
            every_dot,
        ),
{
    let ghost old_cs = cs@;
    assert(before.push(piece@).drop_last() =~= before);
    match piece_component(piece, dot_counts) {
        None => {},
        Some(c) => {
            let ghost cv = c@;
            cs.push(c);
            assert(component_views(cs@) =~= component_views(old_cs).push(cv));
            assert(component_views(cs@) =~= head + named_pieces(before, first_dot, every_dot).push(
                cv,
            ));
        },
    }
}

/// Splits a path into its components.
fn split_components(platform: Platform, t: &Vec<u8>) -> (cs: Vec<Component>)
    ensures
        component_views(cs@) == components_of(PathView { platform, text: t@ }),
{
    let ghost v = PathView { platform, text: t@ };
    let n = find_prefix(platform, t);
    let verbatim = platform == Platform::Windows && begins_verbatim(t);
    let plain = separators_for(platform);
    let s = if verbatim {
        Separators { slash: false, backslash: true }
    } else {
        plain
    };
    let mut cs: Vec<Component> = Vec::new();
    if n > 0 {
        let prefix = vstd::slice::slice_to_vec(vstd::slice::slice_subrange(t.as_slice(), 0, n));
        assert(prefix@ =~= t@.take(n as int));
        cs.push(Component::Prefix(prefix));
    }
    assert(component_views(cs@) =~= if n > 0 {
        seq![ComponentView::Prefix(t@.take(n as int))]
    } else {
        Seq::empty()
    });
    if (n < t.len() && separator(plain, t[n])) || (n > 0 && begins_with_two_separators(t)
        && !verbatim) {
        let ghost old_cs = cs@;
        cs.push(Component::RootDir);
        assert(component_views(cs@) =~= component_views(old_cs).push(ComponentView::RootDir));
    }
    let ghost head = head_components(v);
    assert(component_views(cs@) =~= head);
    let ghost rest = t@.skip(n as int);
    let mut current: Vec<u8> = Vec::new();
    let mut first: bool = true;
    let mut i: usize = n;
    assert(rest.take(0) =~= Seq::empty());
    assert(current@ =~= Seq::empty());
    assert(component_views(cs@) =~= head + named_pieces(Seq::empty(), n == 0, verbatim));
    assert(pieces(rest.take(0), s).drop_last() =~= Seq::empty());
    while i < t.len()
        invariant
            n <= i <= t.len(),
            rest == t@.skip(n as int),
            pieces(rest.take(i - n), s).len() > 0,
            pieces(rest.take(i - n), s).last() == current@,
            first == (pieces(rest.take(i - n), s).len() == 1),
            component_views(cs@) == head + named_pieces(
                pieces(rest.take(i - n), s).drop_last(),
                n == 0,
                verbatim,
            ),
        decreases t.len() - i,
    {
        let ghost before = pieces(rest.take(i - n), s);
        assert(rest.take(i + 1 - n).drop_last() =~= rest.take(i - n));
        assert(rest.take(i + 1 - n).last() == t@[i as int]);
        let b = t[i];
        if separator(s, b) {
            let piece = current;
            current = Vec::new();
            assert(before =~= before.drop_last().push(piece@));
            push_piece(
                &mut cs,
                piece,
                verbatim || (n == 0 && first),
                Ghost(before.drop_last()),
                Ghost(head),
                Ghost(n == 0),
                Ghost(verbatim),
            );
            first = false;
            assert(before.push(Seq::<u8>::empty()).drop_last() =~= before);
        } else {
            current.push(b);
            assert(before.drop_last().push(current@).drop_last() =~= before.drop_last());
        }
        i += 1;
    }
    let ghost all = pieces(rest, s);
    assert(rest.take(t.len() - n) =~= rest);
    assert(all =~= all.drop_last().push(current@));
    push_piece(
        &mut cs,
        current,
        verbatim || (n == 0 && first),
        Ghost(all.drop_last()),
        Ghost(head),
        Ghost(n == 0),
        Ghost(verbatim),
    );
    cs
}

// --------------------------------------------------------------------------
// Comparing components
// --------------------------------------------------------------------------

/// Where a kind of component stands among the others.
pub open spec fn component_rank(c: ComponentView) -> int {
    match c {
        ComponentView::Prefix(_) => 0,
        ComponentView::RootDir => 1,
        ComponentView::CurDir => 2,
        ComponentView::ParentDir => 3,
        ComponentView::Normal(_) => 4,
    }
}

/// Components are ordered by kind, and within a kind by their bytes.
pub open spec fn component_order(a: ComponentView, b: ComponentView) -> Order {
    match (a, b) {
        (ComponentView::Prefix(x), ComponentView::Prefix(y)) => bytes_order(x, y),
        (ComponentView::Normal(x), ComponentView::Normal(y)) => bytes_order(x, y),
        _ => if component_rank(a) < component_rank(b) {
            Order::Less
        } else if component_rank(a) == component_rank(b) {
            Order::Same
        } else {
            Order::Greater
        },
    }
}

/// A byte with a lower-case ASCII letter made upper-case.
pub open spec fn ascii_upper(b: u8) -> u8 {
    if 0x61 <= b && b <= 0x7a {
        (b - 0x20) as u8
    } else {
        b
    }
}

/// A text with its separators made NUL, which no name holds.
pub open spec fn set_apart(t: Seq<u8>, s: Separators) -> Seq<u8> {
    t.map_values(
        |b: u8|
            if separates(s, b) {
                0
            } else {
                b
            },
    )
}

/// What a volume prefix stands for: its kind, and the names in it. The case of a
/// drive letter and the spelling of separators carry no meaning.
pub open spec fn volume_key(t: Seq<u8>) -> Seq<u8> {
    let plain = plain_separators(Platform::Windows);
    if starts_verbatim(t) {
        if t.len() >= 8 && t[4] == 0x55 && t[5] == 0x4e && t[6] == 0x43 && separates(plain, t[7]) {
            seq![1u8] + set_apart(t.skip(8), verbatim_separators())
        } else if t.len() == 6 && drive_at(t, 4) {
            seq![2u8, ascii_upper(t[4])]
        } else {
            seq![0u8] + t.skip(4)
        }
    } else if starts_with_two_separators(t) {
        if t.len() >= 4 && t[2] == 0x2e && separates(plain, t[3]) {
            seq![3u8] + t.skip(4)
        } else {
            seq![4u8] + set_apart(t.skip(2), plain)
        }
    } else if drive_at(t, 0) {
        seq![5u8, ascii_upper(t[0])]
    } else {
        t
    }
}

/// What a component stands for.
pub open spec fn meaning_of(c: ComponentView) -> ComponentView {
    match c {
        ComponentView::Prefix(text) => ComponentView::Prefix(volume_key(text)),
        c => c,
    }
}

/// What a path stands for: paths that agree in it are the same path.
pub open spec fn identity_of(v: PathView) -> Seq<ComponentView> {
    components_of(v).map_values(|c: ComponentView| meaning_of(c))
}

/// Paths are ordered component by component.
pub open spec fn path_order(a: PathView, b: PathView) -> Order {
    lexicographic(
        identity_of(a),
        identity_of(b),
        |x: ComponentView, y: ComponentView| component_order(x, y),
    )
}

pub(crate) proof fn lemma_component_order_total()
    ensures
        is_total_order(|x: ComponentView, y: ComponentView| component_order(x, y)),
        forall|x: ComponentView, y: ComponentView| #[trigger]
            component_order(x, y) == Order::Same ==> x == y,
{
    lemma_bytes_order_total();
    let g = |a: Seq<u8>, b: Seq<u8>| bytes_order(a, b);
    let f = |x: ComponentView, y: ComponentView| component_order(x, y);
    assert forall|x: ComponentView| #[trigger] f(x, x) == Order::Same by {
        match x {
            ComponentView::Prefix(a) => assert(g(a, a) == Order::Same),
            ComponentView::Normal(a) => assert(g(a, a) == Order::Same),
            _ => {},
        }
    }
    assert forall|x: ComponentView, y: ComponentView| #[trigger] f(x, y) == f(y, x).flip() by {
        match (x, y) {
            (ComponentView::Prefix(a), ComponentView::Prefix(b)) => assert(g(a, b) == g(
                b,
                a,
            ).flip()),
            (ComponentView::Normal(a), ComponentView::Normal(b)) => assert(g(a, b) == g(
                b,
                a,
            ).flip()),
            _ => {},
        }
    }
    assert forall|x: ComponentView, y: ComponentView, z: ComponentView|
        #![trigger f(x, y), f(y, z)]
        f(x, y) != Order::Greater && f(y, z) != Order::Greater implies f(x, z) != Order::Greater && (
    f(x, z) == Order::Same ==> f(x, y) == Order::Same && f(y, z) == Order::Same) by {
        match (x, y, z) {
            (
                ComponentView::Prefix(a),
                ComponentView::Prefix(b),
                ComponentView::Prefix(c),
            ) => assert(g(a, b) != Order::Greater && g(b, c) != Order::Greater),
            (
                ComponentView::Normal(a),
                ComponentView::Normal(b),
                ComponentView::Normal(c),
            ) => assert(g(a, b) != Order::Greater && g(b, c) != Order::Greater),
            _ => {},
        }
    }
    assert forall|x: ComponentView, y: ComponentView| #[trigger]
        component_order(x, y) == Order::Same implies x == y by {
        match (x, y) {
            (ComponentView::Prefix(a), ComponentView::Prefix(b)) => assert(bytes_order(a, b)
                == Order::Same),
            (ComponentView::Normal(a), ComponentView::Normal(b)) => assert(bytes_order(a, b)
                == Order::Same),
            _ => {},
        }
    }
}

/// Paths are totally ordered, and only spellings of one path are tied.
pub proof fn lemma_path_order_total()
    ensures
        is_total_order(|a: PathView, b: PathView| path_order(a, b)),
        forall|a: PathView, b: PathView| #[trigger]
            path_order(a, b) == Order::Same <==> identity_of(a) == identity_of(b),
{
    lemma_component_order_total();
    let f = |x: ComponentView, y: ComponentView| component_order(x, y);
    lemma_lexicographic_total(f);
    let g = |a: Seq<ComponentView>, b: Seq<ComponentView>| lexicographic(a, b, f);
    let h = |a: PathView, b: PathView| path_order(a, b);
    assert forall|a: PathView, b: PathView| #[trigger] h(a, b) == g(
        identity_of(a),
        identity_of(b),
    ) by {}
    assert forall|a: PathView, b: PathView, c: PathView|
        #![trigger h(a, b), h(b, c)]
        h(a, b) != Order::Greater && h(b, c) != Order::Greater implies h(a, c) != Order::Greater && (
    h(a, c) == Order::Same ==> h(a, b) == Order::Same && h(b, c) == Order::Same) by {
        assert(g(identity_of(a), identity_of(b)) != Order::Greater);
        assert(g(identity_of(b), identity_of(c)) != Order::Greater);
    }
    assert forall|a: PathView| #[trigger] h(a, a) == Order::Same by {
        assert(g(identity_of(a), identity_of(a)) == Order::Same);
    }
    assert forall|a: PathView, b: PathView| #[trigger] h(a, b) == h(b, a).flip() by {
        assert(g(identity_of(a), identity_of(b)) == g(
            identity_of(b),
            identity_of(a),
        ).flip());
    }
    assert forall|a: PathView, b: PathView| #[trigger]
        path_order(a, b) == Order::Same <==> identity_of(a) == identity_of(b) by {
        lemma_lexicographic_flip(identity_of(a), identity_of(b), f);
        if path_order(a, b) == Order::Same {
            lemma_components_same(identity_of(a), identity_of(b));
        }
    }
}

proof fn lemma_components_same(a: Seq<ComponentView>, b: Seq<ComponentView>)
    requires
        lexicographic(a, b, |x: ComponentView, y: ComponentView| component_order(x, y))
            == Order::Same,
    ensures
        a == b,
    decreases a.len(),
{
    lemma_component_order_total();
    if a.len() > 0 {
        assert(component_order(a[0], b[0]) == Order::Same);
        lemma_components_same(a.drop_first(), b.drop_first());
        assert(a =~= seq![a[0]] + a.drop_first());
        assert(b =~= seq![b[0]] + b.drop_first());
    } else {
        assert(a =~= b);
    }
}

fn rank(c: &Component) -> (r: u8)
    ensures
        r == component_rank(c@),
{
    match c {
        Component::Prefix(_) => 0,
        Component::RootDir => 1,
        Component::CurDir => 2,
        Component::ParentDir => 3,
        Component::Normal(_) => 4,
    }
}

fn upper_byte(b: u8) -> (r: u8)
    ensures
        r == ascii_upper(b),
{
    if 0x61 <= b && b <= 0x7a {
        b - 0x20
    } else {
        b
    }
}

/// Appends a text from `from` on, with its separators made NUL.
fn push_apart(out: &mut Vec<u8>, t: &Vec<u8>, from: usize, s: Separators)
    requires
        from <= t.len(),
    ensures
        final(out)@ == old(out)@ + set_apart(t@.skip(from as int), s),
{
    let ghost before = out@;
    let ghost goal = set_apart(t@.skip(from as int), s);
    let mut i: usize = from;
    assert(out@ =~= before + goal.take(0));
    while i < t.len()
        invariant
            from <= i <= t.len(),
            goal == set_apart(t@.skip(from as int), s),
            out@ == before + goal.take(i - from),
        decreases t.len() - i,
    {
        let b = if separator(s, t[i]) {
            0
        } else {
            t[i]
        };
        out.push(b);
        assert(goal[i - from] == b);
        assert(out@ =~= before + goal.take(i - from + 1));
        i += 1;
    }
    assert(goal.take(t.len() - from) =~= goal);
}

/// Appends a text from `from` on.
fn push_rest(out: &mut Vec<u8>, t: &Vec<u8>, from: usize)
    requires
        from <= t.len(),
    ensures
        final(out)@ == old(out)@ + t@.skip(from as int),
{
    let mut rest = vstd::slice::slice_to_vec(
        vstd::slice::slice_subrange(t.as_slice(), from, t.len()),
    );
    out.append(&mut rest);
    assert(t@.subrange(from as int, t.len() as int) =~= t@.skip(from as int));
}

/// What a volume prefix stands for.
pub(crate) fn key_of_volume(t: &Vec<u8>) -> (r: Vec<u8>)
    ensures
        r@ == volume_key(t@),
{
    let plain = separators_for(Platform::Windows);
    let verbatim = Separators { slash: false, backslash: true };
    let mut out: Vec<u8> = Vec::with_capacity(t.len());
    if begins_verbatim(t) {
        if t.len() >= 8 && t[4] == 0x55 && t[5] == 0x4e && t[6] == 0x43 && separator(plain, t[7]) {
            out.push(1);
            push_apart(&mut out, t, 8, verbatim);
            assert(out@ =~= volume_key(t@));
        } else if t.len() == 6 && has_drive(t, 4) {
            out.push(2);
            out.push(upper_byte(t[4]));
            assert(out@ =~= volume_key(t@));
        } else {
            out.push(0);
            push_rest(&mut out, t, 4);
            assert(out@ =~= volume_key(t@));
        }
    } else if begins_with_two_separators(t) {
        if t.len() >= 4 && t[2] == 0x2e && separator(plain, t[3]) {
            out.push(3);
            push_rest(&mut out, t, 4);
            assert(out@ =~= volume_key(t@));
        } else {
            out.push(4);
            push_apart(&mut out, t, 2, plain);
            assert(out@ =~= volume_key(t@));
        }
    } else if has_drive(t, 0) {
        out.push(5);
        out.push(upper_byte(t[0]));
        assert(out@ =~= volume_key(t@));
    } else {
        push_rest(&mut out, t, 0);
        assert(out@ =~= volume_key(t@));
    }
    out
}

fn compare_components(a: &Component, b: &Component) -> (r: Order)
    ensures
        r == component_order(meaning_of(a@), meaning_of(b@)),
{
    match (a, b) {
        (Component::Prefix(x), Component::Prefix(y)) => compare_bytes(
            &key_of_volume(x),
            &key_of_volume(y),
        ),
        (Component::Normal(x), Component::Normal(y)) => compare_bytes(x, y),
        _ => {
            let x = rank(a);
            let y = rank(b);
            if x < y {
                Order::Less
            } else if x == y {
                Order::Same
            } else {
                Order::Greater
            }
        },
    }
}

/// The text of a component.
pub open spec fn component_text(platform: Platform, c: ComponentView) -> Seq<u8> {
    match c {
        ComponentView::Prefix(text) => text,
        ComponentView::RootDir => seq![main_separator(platform)],
        ComponentView::CurDir => seq![0x2eu8],
        ComponentView::ParentDir => seq![0x2eu8, 0x2eu8],
        ComponentView::Normal(text) => text,
    }
}

/// The separator that the platform prefers.
pub open spec fn main_separator(platform: Platform) -> u8 {
    match platform {
        Platform::Unix => 0x2f,
        Platform::Windows => 0x5c,
    }
}

/// ASCII upper case letters become lower case; every other byte stays.
pub open spec fn ascii_lower(b: u8) -> u8 {
    if 0x41 <= b && b <= 0x5a {
        (b + 0x20) as u8
    } else {
        b
    }
}

/// Two byte strings that differ at most in the case of ASCII letters.
pub open spec fn same_ignoring_case(a: Seq<u8>, b: Seq<u8>) -> bool {
    a.len() == b.len() && forall|i: int|
        0 <= i < a.len() ==> ascii_lower(#[trigger] a[i]) == ascii_lower(b[i])
}

/// A half of a surrogate pair, as Windows names may hold it alone, stands at
/// `i`: three bytes that no UTF-8 text holds.
pub open spec fn surrogate_at(text: Seq<u8>, i: int) -> bool {
    &&& 0 <= i && i + 2 < text.len()
    &&& text[i] == 0xed
    &&& 0xa0 <= text[i + 1] <= 0xbf
    &&& 0x80 <= text[i + 2] <= 0xbf
}

/// The bytes from `i` on, with U+FFFD for each half of a surrogate pair.
pub open spec fn without_surrogates(text: Seq<u8>, i: int) -> Seq<u8>
    decreases text.len() - i,
{
    if i < 0 || i >= text.len() {
        Seq::empty()
    } else if surrogate_at(text, i) {
        seq![0xefu8, 0xbfu8, 0xbdu8] + without_surrogates(text, i + 3)
    } else {
        seq![text[i]] + without_surrogates(text, i + 1)
    }
}

/// The text of a name on a platform, with what is no text replaced.
pub open spec fn name_text(platform: Platform, name: Seq<u8>) -> Seq<char> {
    match platform {
        Platform::Unix => lossy_text(name),
        Platform::Windows => lossy_text(without_surrogates(name, 0)),
    }
}

/// The text of a path, with what is no text replaced.
pub open spec fn path_text(path: PathView) -> Seq<char> {
    name_text(path.platform, path.text)
}

/// Two components name the same thing.
pub open spec fn same_component(platform: Platform, a: ComponentView, b: ComponentView) -> bool {
    match platform {
        Platform::Unix => a == b,
        Platform::Windows => same_ignoring_case(
            encode_utf8(name_text(platform, component_text(platform, a))),
            encode_utf8(name_text(platform, component_text(platform, b))),
        ),
    }
}

pub(crate) fn separator_byte(platform: Platform) -> (b: u8)
    ensures
        b == main_separator(platform),
{
    match platform {
        Platform::Unix => 0x2f,
        Platform::Windows => 0x5c,
    }
}

pub(crate) fn text_of_component(platform: Platform, c: &Component) -> (r: Vec<u8>)
    ensures
        r@ == component_text(platform, c@),
{
    let mut out: Vec<u8> = Vec::new();
    match c {
        Component::Prefix(text) => {
            out = copy_bytes(text);
        },
        Component::RootDir => {
            out.push(separator_byte(platform));
        },
        Component::CurDir => {
            out.push(0x2e);
        },
        Component::ParentDir => {
            out.push(0x2e);
            out.push(0x2e);
        },
        Component::Normal(text) => {
            out = copy_bytes(text);
        },
    }
    assert(out@ =~= component_text(platform, c@));
    out
}

/// A copy of a byte string.
pub(crate) fn copy_bytes(v: &Vec<u8>) -> (r: Vec<u8>)
    ensures
        r@ == v@,
{
    vstd::slice::slice_to_vec(v.as_slice())
}

/// A copy of a component.
pub(crate) fn copy_component(c: &Component) -> (r: Component)
    ensures
        r@ == c@,
{
    match c {
        Component::Prefix(text) => Component::Prefix(copy_bytes(text)),
        Component::RootDir => Component::RootDir,
        Component::CurDir => Component::CurDir,
        Component::ParentDir => Component::ParentDir,
        Component::Normal(name) => Component::Normal(copy_bytes(name)),
    }
}

/// Copies of components.
pub(crate) fn copy_components(cs: &Vec<Component>) -> (r: Vec<Component>)
    ensures
        component_views(r@) == component_views(cs@),
{
    let mut parts: Vec<Component> = Vec::with_capacity(cs.len());
    let mut i: usize = 0;
    while i < cs.len()
        invariant
            i <= cs.len(),
            component_views(parts@) == component_views(cs@).take(i as int),
        decreases cs.len() - i,
    {
        let ghost before = parts@;
        let c = copy_component(&cs[i]);
        parts.push(c);
        assert(component_views(parts@) =~= component_views(before).push(c@));
        assert(component_views(cs@).take(i + 1) =~= component_views(cs@).take(i as int).push(c@));
        i += 1;
    }
    assert(component_views(cs@).take(cs.len() as int) =~= component_views(cs@));
    parts
}

/// Two byte strings are the same.
pub(crate) fn bytes_equal(a: &Vec<u8>, b: &Vec<u8>) -> (r: bool)
    ensures
        r == (a@ == b@),
{
    if a.len() != b.len() {
        return false;
    }
    let mut i: usize = 0;
    while i < a.len()
        invariant
            i <= a.len(),
            a.len() == b.len(),
            forall|j: int| 0 <= j < i ==> a@[j] == b@[j],
        decreases a.len() - i,
    {
        if a[i] != b[i] {
            return false;
        }
        i += 1;
    }
    assert(a@ =~= b@);
    true
}

fn lower_byte(b: u8) -> (r: u8)
    ensures
        r == ascii_lower(b),
{
    if 0x41 <= b && b <= 0x5a {
        b + 0x20
    } else {
        b
    }
}

/// Puts U+FFFD in the place of each half of a surrogate pair.
fn replace_surrogates(text: &Vec<u8>) -> (r: Vec<u8>)
    ensures
        r@ == without_surrogates(text@, 0),
{
    let mut r: Vec<u8> = Vec::new();
    let mut i: usize = 0;
    assert(r@ + without_surrogates(text@, 0) =~= without_surrogates(text@, 0));
    while i < text.len()
        invariant
            i <= text.len(),
            r@ + without_surrogates(text@, i as int) == without_surrogates(text@, 0),
        decreases text.len() - i,
    {
        let ghost before = r@;
        let ghost at = i as int;
        if text.len() - i > 2 && text[i] == 0xed && 0xa0 <= text[i + 1] && text[i + 1] <= 0xbf
            && 0x80 <= text[i + 2] && text[i + 2] <= 0xbf {
            r.push(0xef);
            r.push(0xbf);
            r.push(0xbd);
            i += 3;
        } else {
            r.push(text[i]);
            i += 1;
        }
        assert(r@ + without_surrogates(text@, i as int) =~= before + without_surrogates(text@, at));
    }
    assert(r@ + without_surrogates(text@, i as int) =~= r@);
    r
}

/// The text of a name, with what is no text replaced.
pub(crate) fn text_of_name(platform: Platform, name: &Vec<u8>) -> (r: String)
    ensures
        r@ == name_text(platform, name@),
        platform is Unix && valid_utf8(name@) ==> encode_utf8(r@) == name@,
        platform is Windows && valid_utf8(without_surrogates(name@, 0)) ==> encode_utf8(r@)
            == without_surrogates(name@, 0),
{
    match platform {
        Platform::Unix => from_utf8_lossy(name),
        Platform::Windows => from_utf8_lossy(&replace_surrogates(name)),
    }
}

/// Every byte is one of ASCII.
pub open spec fn is_ascii(t: Seq<u8>) -> bool {
    forall|i: int| 0 <= i < t.len() ==> #[trigger] t[i] < 0x80
}

proof fn lemma_ascii_name(t: Seq<u8>)
    requires
        is_ascii(t),
    ensures
        valid_utf8(t),
        without_surrogates(t, 0) == t,
{
    let chars = t.map_values(|b: u8| b as char);
    assert(is_ascii_chars(chars));
    vstd::utf8::is_ascii_chars_encode_utf8(chars);
    assert(encode_utf8(chars) =~= t) by {
        assert forall|i: int| 0 <= i < t.len() implies encode_utf8(chars)[i] == t[i] by {
            assert(chars[i] as u8 == t[i]);
        }
    }
    vstd::utf8::encode_utf8_valid_utf8(chars);
    lemma_no_surrogates(t, 0);
    assert(t.skip(0) =~= t);
}

proof fn lemma_no_surrogates(t: Seq<u8>, i: int)
    requires
        is_ascii(t),
        0 <= i <= t.len(),
    ensures
        without_surrogates(t, i) == t.skip(i),
    decreases t.len() - i,
{
    if i < t.len() {
        assert(t[i] < 0x80);
        lemma_no_surrogates(t, i + 1);
        assert(t.skip(i) =~= seq![t[i]] + t.skip(i + 1));
    } else {
        assert(t.skip(i) =~= Seq::empty());
    }
}

/// Compares two components by their text, without regard to ASCII case.
pub fn component_eq_ignore_case(a: &Component, b: &Component) -> (r: bool)
    ensures
        r == same_component(Platform::Windows, a@, b@),
        // names in ASCII are told apart without regard to case
        (a@ matches ComponentView::Normal(x) && b@ matches ComponentView::Normal(y) && is_ascii(x)
            && is_ascii(y)) ==> r == same_ignoring_case(a@->Normal_0, b@->Normal_0),
{
    let platform = Platform::Windows;
    let s = text_of_name(platform, &text_of_component(platform, a));
    let t = text_of_name(platform, &text_of_component(platform, b));
    proof {
        if is_ascii(component_text(platform, a@)) {
            lemma_ascii_name(component_text(platform, a@));
        }
        if is_ascii(component_text(platform, b@)) {
            lemma_ascii_name(component_text(platform, b@));
        }
    }
    let x = s.as_str().as_bytes();
    let y = t.as_str().as_bytes();
    if x.len() != y.len() {
        return false;
    }
    let mut i: usize = 0;
    while i < x.len()
        invariant
            i <= x.len(),
            x.len() == y.len(),
            platform == Platform::Windows,
            x@ == encode_utf8(name_text(platform, component_text(platform, a@))),
            y@ == encode_utf8(name_text(platform, component_text(platform, b@))),
            is_ascii(component_text(platform, a@)) ==> x@ == component_text(platform, a@),
            is_ascii(component_text(platform, b@)) ==> y@ == component_text(platform, b@),
            forall|j: int| 0 <= j < i ==> ascii_lower(#[trigger] x@[j]) == ascii_lower(y@[j]),
        decreases x.len() - i,
    {
        if lower_byte(x[i]) != lower_byte(y[i]) {
            assert(ascii_lower(x@[i as int]) != ascii_lower(y@[i as int]));
            return false;
        }
        i += 1;
    }
    true
}

fn component_eq(a: &Component, b: &Component) -> (r: bool)
    ensures
        r == (a@ == b@),
{
    match (a, b) {
        (Component::Prefix(x), Component::Prefix(y)) => bytes_equal(x, y),
        (Component::Normal(x), Component::Normal(y)) => bytes_equal(x, y),
        (Component::RootDir, Component::RootDir) => true,
        (Component::CurDir, Component::CurDir) => true,
        (Component::ParentDir, Component::ParentDir) => true,
        _ => false,
    }
}

/// Compares two components as the platform compares names.
pub(crate) fn components_match(platform: Platform, a: &Component, b: &Component) -> (r: bool)
    ensures
        r == same_component(platform, a@, b@),
{
    match platform {
        Platform::Unix => component_eq(a, b),
        Platform::Windows => component_eq_ignore_case(a, b),
    }
}

// --------------------------------------------------------------------------
// The path type
// --------------------------------------------------------------------------

/// A path: its text, and the components that the text is made of.
#[derive(Debug)]
pub struct PathBuf {
    platform: Platform,
    text: Vec<u8>,
    components: Vec<Component>,
}

impl View for PathBuf {
    type V = PathView;

    closed spec fn view(&self) -> PathView {
        PathView { platform: self.platform, text: self.text@ }
    }
}

impl PathBuf {
    #[verifier::type_invariant]
    spec fn well_formed(self) -> bool {
        component_views(self.components@) == components_of(
            PathView { platform: self.platform, text: self.text@ },
        )
    }

    /// The components of the path.
    pub open spec fn parts(&self) -> Seq<ComponentView> {
        components_of(self@)
    }

    /// The path that a text spells.
    pub fn new(platform: Platform, text: Vec<u8>) -> (r: PathBuf)
        ensures
            r@ == (PathView { platform, text: text@ }),
    {
        let components = split_components(platform, &text);
        PathBuf { platform, text, components }
    }

    pub fn platform(&self) -> (r: Platform)
        ensures
            r == self@.platform,
    {
        self.platform
    }

    /// The text of the path, as it was written.
    pub fn text(&self) -> (r: &Vec<u8>)
        ensures
            r@ == self@.text,
    {
        &self.text
    }

    pub fn components(&self) -> (r: &Vec<Component>)
        ensures
            component_views(r@) == self.parts(),
    {
        proof {
            use_type_invariant(self);
        }
        &self.components
    }

    /// Compares two paths component by component.
    pub fn compare(&self, other: &PathBuf) -> (r: Order)
        ensures
            r == path_order(self@, other@),
    {
        let a = self.components();
        let b = other.components();
        let ghost f = |x: ComponentView, y: ComponentView| component_order(x, y);
        let ghost x = identity_of(self@);
        let ghost y = identity_of(other@);
        let mut i: usize = 0;
        assert(x.skip(0) =~= x);
        assert(y.skip(0) =~= y);
        while i < a.len() && i < b.len()
            invariant
                i <= a.len(),
                i <= b.len(),
                x.len() == a.len(),
                y.len() == b.len(),
                forall|k: int| 0 <= k < a.len() ==> #[trigger] x[k] == meaning_of(a@[k]@),
                forall|k: int| 0 <= k < b.len() ==> #[trigger] y[k] == meaning_of(b@[k]@),
                f == (|x: ComponentView, y: ComponentView| component_order(x, y)),
                path_order(self@, other@) == lexicographic(x.skip(i as int), y.skip(i as int), f),
            decreases a.len() - i,
        {
            assert(x.skip(i as int).len() > 0 && y.skip(i as int).len() > 0);
            let o = compare_components(&a[i], &b[i]);
            assert(x.skip(i as int)[0] == x[i as int]);
            assert(y.skip(i as int)[0] == y[i as int]);
            if o != Order::Same {
                return o;
            }
            assert(x.skip(i as int).drop_first() =~= x.skip(i + 1));
            assert(y.skip(i as int).drop_first() =~= y.skip(i + 1));
            i += 1;
        }
        if i < b.len() {
            Order::Less
        } else if i < a.len() {
            Order::Greater
        } else {
            Order::Same
        }
    }

    /// Two paths are spellings of one path.
    pub fn same_as(&self, other: &PathBuf) -> (r: bool)
        ensures
            r == (identity_of(self@) == identity_of(other@)),
    {
        let r = self.compare(other) == Order::Same;
        proof {
            lemma_path_order_total();
        }
        r
    }

    /// The text of the path, with what is no text replaced.
    pub fn to_lossy(&self) -> (r: String)
        ensures
            r@ == path_text(self@),
    {
        text_of_name(self.platform, &self.text)
    }

    /// The length of the volume prefix.
    pub(crate) fn prefix_end(&self) -> (r: usize)
        ensures
            r == prefix_len(self@),
            r <= self@.text.len(),
    {
        find_prefix(self.platform, &self.text)
    }

    /// Tells whether the path is a verbatim one.
    pub(crate) fn verbatim(&self) -> (r: bool)
        ensures
            r == is_verbatim(self@),
    {
        self.platform == Platform::Windows && begins_verbatim(&self.text)
    }

    /// Tells whether the path starts at a root.
    pub(crate) fn rooted(&self) -> (r: bool)
        ensures
            r == starts_at_root(self@),
    {
        let n = self.prefix_end();
        let plain = separators_for(self.platform);
        (n < self.text.len() && separator(plain, self.text[n])) || (n > 0
            && begins_with_two_separators(&self.text) && !self.verbatim())
    }

    /// Tells whether a name behind the path needs a separator before it.
    pub(crate) fn ends_open(&self) -> (r: bool)
        ensures
            r == (self@.text.len() > 0 && !separates(
                plain_separators(self@.platform),
                self@.text.last(),
            )),
    {
        let n = self.text.len();
        n > 0 && !separator(separators_for(self.platform), self.text[n - 1])
    }

    /// Tells whether the path is absolute.
    pub fn is_absolute(&self) -> (r: bool)
        ensures
            r == is_absolute_path(self@),
    {
        (self.rooted() || self.verbatim()) && (self.platform == Platform::Unix || self.prefix_end()
            > 0)
    }

    /// The last component, where it is a name.
    pub fn file_name(&self) -> (r: Option<&Vec<u8>>)
        ensures
            match r {
                None => file_name_of(self.parts()) is None,
                Some(name) => file_name_of(self.parts()) == Some(name@),
            },
    {
        let cs = self.components();
        if cs.len() == 0 {
            return None;
        }
        assert(self.parts().last() == cs@[cs.len() - 1]@);
        match &cs[cs.len() - 1] {
            Component::Normal(name) => Some(name),
            _ => None,
        }
    }
}

impl Clone for PathBuf {
    fn clone(&self) -> (r: PathBuf)
        ensures
            r@ == self@,
    {
        PathBuf::new(self.platform, copy_bytes(&self.text))
    }
}

/// A path that starts at a root, and on Windows also names its volume.
pub open spec fn is_absolute_path(v: PathView) -> bool {
    &&& starts_at_root(v) || is_verbatim(v)
    &&& v.platform is Unix || prefix_len(v) > 0
}

/// The last component, where it is a name.
pub open spec fn file_name_of(parts: Seq<ComponentView>) -> Option<Seq<u8>> {
    if parts.len() > 0 && parts.last() is Normal {
        Some(parts.last()->Normal_0)
    } else {
        None
    }
}

impl PartialEq for PathBuf {
    fn eq(&self, other: &PathBuf) -> (r: bool) {
        self.same_as(other)
    }
}

impl vstd::std_specs::cmp::PartialEqSpecImpl for PathBuf {
    open spec fn obeys_eq_spec() -> bool {
        true
    }

    open spec fn eq_spec(&self, other: &PathBuf) -> bool {
        identity_of(self@) == identity_of(other@)
    }
}

impl Eq for PathBuf {
}

/// The empty path has no components.
pub proof fn lemma_empty_path(v: PathView)
    requires
        v.text.len() == 0,
    ensures
        components_of(v).len() == 0,
{
    let ps = pieces(v.text.skip(0), separators_of(v));
    assert(ps.drop_last() =~= Seq::<Seq<u8>>::empty());
    assert(named_pieces(ps.drop_last(), true, is_verbatim(v)).len() == 0);
    assert(ps.last().len() == 0);
}

} // verus!
