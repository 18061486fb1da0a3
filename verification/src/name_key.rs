//! Paths as keys: two paths have the same key if and only if they are spellings of
//! one path.

use vstd::prelude::*;

use crate::path::{identity_of, key_of_volume, meaning_of, Component, ComponentView, PathBuf};

verus! {

/// The character that the key of a component starts with. No byte is written
/// as one of these.
pub open spec fn component_mark(c: ComponentView) -> char {
    match c {
        ComponentView::Prefix(_) => '\u{100}',
        ComponentView::RootDir => '\u{101}',
        ComponentView::CurDir => '\u{102}',
        ComponentView::ParentDir => '\u{103}',
        ComponentView::Normal(_) => '\u{104}',
    }
}

/// The bytes that a component holds.
pub open spec fn component_bytes(c: ComponentView) -> Seq<u8> {
    match c {
        ComponentView::Prefix(text) => text,
        ComponentView::Normal(name) => name,
        _ => Seq::empty(),
    }
}

/// Bytes written one character each.
pub open spec fn bytes_as_chars(bytes: Seq<u8>) -> Seq<char> {
    bytes.map_values(|b: u8| b as char)
}

/// The key of a list of components.
pub open spec fn parts_key(parts: Seq<ComponentView>) -> Seq<char>
    decreases parts.len(),
{
    if parts.len() == 0 {
        Seq::empty()
    } else {
        parts_key(parts.drop_last()).push(component_mark(parts.last())) + bytes_as_chars(
            component_bytes(parts.last()),
        )
    }
}

/// Different lists of components have different keys.
pub proof fn lemma_parts_key(a: Seq<ComponentView>, b: Seq<ComponentView>)
    requires
        parts_key(a) == parts_key(b),
    ensures
        a == b,
    decreases a.len(),
{
    if a.len() == 0 || b.len() == 0 {
        assert(a.len() > 0 ==> parts_key(a).len() > 0);
        assert(b.len() > 0 ==> parts_key(b).len() > 0);
        assert(a =~= b);
    } else {
        let (x, y) = (a.last(), b.last());
        let (p, q) = (parts_key(a.drop_last()), parts_key(b.drop_last()));
        let (u, v) = (component_bytes(x), component_bytes(y));
        let key = parts_key(a);
        assert(key == p.push(component_mark(x)) + bytes_as_chars(u));
        assert(key == q.push(component_mark(y)) + bytes_as_chars(v));
        assert(key.len() == p.len() + 1 + u.len());
        assert(key.len() == q.len() + 1 + v.len());
        assert(key[p.len() as int] == component_mark(x));
        assert(key[q.len() as int] == component_mark(y));
        if p.len() < q.len() {
            assert(key[q.len() as int] == bytes_as_chars(u)[q.len() - p.len() - 1]);
            assert(key[q.len() as int] == u[q.len() - p.len() - 1] as char);
        }
        if q.len() < p.len() {
            assert(key[p.len() as int] == bytes_as_chars(v)[p.len() - q.len() - 1]);
            assert(key[p.len() as int] == v[p.len() - q.len() - 1] as char);
        }
        assert(p.len() == q.len());
        assert(p =~= key.take(p.len() as int));
        assert(q =~= key.take(p.len() as int));
        assert(bytes_as_chars(u) =~= key.skip(p.len() as int + 1));
        assert(bytes_as_chars(v) =~= key.skip(p.len() as int + 1));
        assert(u.len() == v.len());
        assert forall|i: int| 0 <= i < u.len() implies u[i] == v[i] by {
            assert(bytes_as_chars(u)[i] == u[i] as char);
            assert(bytes_as_chars(v)[i] == v[i] as char);
        }
        assert(u =~= v);
        assert(x == y);
        lemma_parts_key(a.drop_last(), b.drop_last());
        assert(a =~= a.drop_last().push(x));
        assert(b =~= b.drop_last().push(y));
    }
}

fn push_bytes(key: &mut String, bytes: &Vec<u8>)
    ensures
        final(key)@ == old(key)@ + bytes_as_chars(bytes@),
{
    let ghost before = key@;
    let mut i: usize = 0;
    assert(before + bytes_as_chars(bytes@.take(0)) =~= before);
    while i < bytes.len()
        invariant
            i <= bytes.len(),
            key@ == before + bytes_as_chars(bytes@.take(i as int)),
        decreases bytes.len() - i,
    {
        key.push(bytes[i] as char);
        assert(key@ =~= before + bytes_as_chars(bytes@.take(i + 1)));
        i += 1;
    }
    assert(bytes@.take(bytes.len() as int) =~= bytes@);
}

/// The key of a path.
pub fn name_key(path: &PathBuf) -> (r: String)
    ensures
        r@ == parts_key(identity_of(path@)),
{
    let cs = path.components();
    let ghost parts = identity_of(path@);
    let mut key = String::new();
    let mut i: usize = 0;
    assert(parts.take(0) =~= Seq::empty());
    assert(key@ =~= Seq::empty());
    while i < cs.len()
        invariant
            i <= cs.len(),
            parts.len() == cs.len(),
            forall|k: int| 0 <= k < cs.len() ==> #[trigger] parts[k] == meaning_of(cs@[k]@),
            key@ == parts_key(parts.take(i as int)),
        decreases cs.len() - i,
    {
        let ghost before = key@;
        assert(parts.take(i + 1).drop_last() =~= parts.take(i as int));
        assert(parts.take(i + 1).last() == parts[i as int]);
        match &cs[i] {
            Component::Prefix(text) => {
                key.push('\u{100}');
                push_bytes(&mut key, &key_of_volume(text));
            },
            Component::RootDir => {
                key.push('\u{101}');
            },
            Component::CurDir => {
                key.push('\u{102}');
            },
            Component::ParentDir => {
                key.push('\u{103}');
            },
            Component::Normal(name) => {
                key.push('\u{104}');
                push_bytes(&mut key, name);
            },
        }
        assert(key@ =~= parts_key(parts.take(i + 1)));
        i += 1;
    }
    assert(parts.take(cs.len() as int) =~= parts);
    key
}

} // verus!
