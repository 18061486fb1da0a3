//! Paths put together.

use vstd::prelude::*;
use vstd::utf8::encode_utf8;

use crate::path::{
    component_text, component_views, components_of, copy_bytes, copy_component, copy_components,
    is_absolute_path, is_verbatim, main_separator, plain_separators, prefix_len, separates,
    separator_byte, starts_at_root, text_of_component,
};
use crate::path::{Component, ComponentView, PathBuf, PathView, Platform};

verus! {

/// Components of a relative path put behind those of a verbatim path: `.` is
/// dropped, `..` takes the name before it away, and a root starts anew behind
/// the prefix.
pub open spec fn put_behind(base: Seq<ComponentView>, more: Seq<ComponentView>) -> Seq<ComponentView>
    decreases more.len(),
{
    if more.len() == 0 {
        base
    } else {
        let before = put_behind(base, more.drop_last());
        match more.last() {
            ComponentView::CurDir => before,
            ComponentView::ParentDir => if before.len() > 0 && before.last() is Normal {
                before.drop_last()
            } else {
                before
            },
            ComponentView::RootDir => before.take(
                if before.len() > 0 {
                    1
                } else {
                    0
                },
            ).push(ComponentView::RootDir),
            c => before.push(c),
        }
    }
}

/// The text of the components of a verbatim path.
pub open spec fn verbatim_text(platform: Platform, cs: Seq<ComponentView>) -> Seq<u8>
    decreases cs.len(),
{
    if cs.len() == 0 {
        Seq::empty()
    } else {
        let before = verbatim_text(platform, cs.drop_last());
        let text = component_text(platform, cs.last());
        if cs.len() == 1 || cs.last() is RootDir || cs[cs.len() - 2] is RootDir {
            before + text
        } else {
            before.push(main_separator(platform)) + text
        }
    }
}

/// A separator has to stand between the path and a name behind it.
pub open spec fn needs_separator(v: PathView) -> bool {
    v.text.len() > 0 && !separates(plain_separators(v.platform), v.text.last()) && !(prefix_len(v)
        == 2 && v.text.len() == 2)
}

/// The path that a path behind another one leads to: an absolute path or one on
/// another volume replaces the first, and a path from the root replaces all but
/// the volume.
pub open spec fn joined(base: PathView, other: PathView) -> PathView {
    PathView {
        platform: base.platform,
        text: if is_absolute_path(other) || prefix_len(other) > 0 {
            other.text
        } else if is_verbatim(base) && other.text.len() > 0 {
            verbatim_text(base.platform, put_behind(components_of(base), components_of(other)))
        } else if starts_at_root(other) {
            base.text.take(prefix_len(base)) + other.text
        } else if needs_separator(base) {
            base.text.push(main_separator(base.platform)) + other.text
        } else {
            base.text + other.text
        },
    }
}

fn put_components_behind(base: &Vec<Component>, more: &Vec<Component>) -> (r: Vec<Component>)
    ensures
        component_views(r@) == put_behind(component_views(base@), component_views(more@)),
{
    let ghost first = component_views(base@);
    let ghost views = component_views(more@);
    let mut parts = copy_components(base);
    let mut i: usize = 0;
    assert(views.take(0) =~= Seq::empty());
    while i < more.len()
        invariant
            i <= more.len(),
            views == component_views(more@),
            component_views(parts@) == put_behind(first, views.take(i as int)),
        decreases more.len() - i,
    {
        let ghost before = parts@;
        assert(views.take(i + 1).drop_last() =~= views.take(i as int));
        assert(views.take(i + 1).last() == more@[i as int]@);
        match &more[i] {
            Component::CurDir => {},
            Component::ParentDir => {
                if parts.len() > 0 {
                    assert(component_views(parts@).last() == parts@.last()@);
                    match &parts[parts.len() - 1] {
                        Component::Normal(_) => {
                            parts.pop();
                            assert(component_views(parts@) =~= component_views(
                                before,
                            ).drop_last());
                        },
                        _ => {},
                    }
                }
            },
            Component::RootDir => {
                if parts.len() > 0 {
                    parts.truncate(1);
                }
                assert(component_views(parts@) =~= component_views(before).take(
                    if before.len() > 0 {
                        1
                    } else {
                        0
                    },
                ));
                let ghost cut = parts@;
                parts.push(Component::RootDir);
                assert(component_views(parts@) =~= component_views(cut).push(
                    ComponentView::RootDir,
                ));
            },
            c => {
                let copy = copy_component(c);
                parts.push(copy);
                assert(component_views(parts@) =~= component_views(before).push(copy@));
            },
        }
        i += 1;
    }
    assert(views.take(more.len() as int) =~= views);
    parts
}

fn write_verbatim(platform: Platform, cs: &Vec<Component>) -> (r: Vec<u8>)
    ensures
        r@ == verbatim_text(platform, component_views(cs@)),
{
    let ghost views = component_views(cs@);
    let mut out: Vec<u8> = Vec::new();
    let mut i: usize = 0;
    assert(views.take(0) =~= Seq::empty());
    assert(out@ =~= Seq::empty());
    while i < cs.len()
        invariant
            i <= cs.len(),
            views == component_views(cs@),
            out@ == verbatim_text(platform, views.take(i as int)),
        decreases cs.len() - i,
    {
        let ghost now = views.take(i + 1);
        assert(now.drop_last() =~= views.take(i as int));
        assert(now.last() == cs@[i as int]@);
        assert(i > 0 ==> now[i - 1] == cs@[i - 1]@);
        let joined_on = match &cs[i] {
            Component::RootDir => true,
            _ => i == 0 || match &cs[i - 1] {
                Component::RootDir => true,
                _ => false,
            },
        };
        if !joined_on {
            out.push(separator_byte(platform));
        }
        let mut text = text_of_component(platform, &cs[i]);
        out.append(&mut text);
        i += 1;
    }
    assert(views.take(cs.len() as int) =~= views);
    out
}

impl PathBuf {
    /// The path that `other` leads to from this one.
    pub fn join(&self, other: &PathBuf) -> (r: PathBuf)
        requires
            self@.platform == other@.platform,
        ensures
            r@ == joined(self@, other@),
    {
        let platform = self.platform();
        let mut more = copy_bytes(other.text());
        if other.is_absolute() || other.prefix_end() > 0 {
            return PathBuf::new(platform, more);
        }
        if self.verbatim() && more.len() > 0 {
            let parts = put_components_behind(self.components(), other.components());
            return PathBuf::new(platform, write_verbatim(platform, &parts));
        }
        let mut text = copy_bytes(self.text());
        let n = self.prefix_end();
        if other.rooted() {
            text.truncate(n);
        } else if self.ends_open() && !(n == 2 && text.len() == 2) {
            text.push(separator_byte(platform));
        }
        text.append(&mut more);
        PathBuf::new(platform, text)
    }

    /// A path on Unix.
    pub fn unix(text: &str) -> (r: PathBuf)
        ensures
            r@ == (PathView { platform: Platform::Unix, text: encode_utf8(text@) }),
    {
        PathBuf::from_text(Platform::Unix, text)
    }

    /// A path on Windows.
    pub fn windows(text: &str) -> (r: PathBuf)
        ensures
            r@ == (PathView { platform: Platform::Windows, text: encode_utf8(text@) }),
    {
        PathBuf::from_text(Platform::Windows, text)
    }

    /// The path that a text spells.
    pub fn from_text(platform: Platform, text: &str) -> (r: PathBuf)
        ensures
            r@ == (PathView { platform, text: encode_utf8(text@) }),
    {
        PathBuf::new(platform, vstd::slice::slice_to_vec(text.as_bytes()))
    }
}

} // verus!
