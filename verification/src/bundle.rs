//! Archive planning: which walked entries the application archive takes,
//! and under what root-relative names.

use vstd::prelude::*;

use crate::errors::Error;

verus! {

/// What the directory walk reports for one path.
#[derive(Debug, Clone, Copy, PartialEq, Eq, Structural)]
pub enum WalkKind {
    /// A regular file: archived.
    File,
    /// A directory or other non-file entry: skipped.
    Directory,
    /// The walk failed on this entry: reported and skipped.
    Failed,
}

/// Ghost image of a walked entry.
pub ghost struct EntryView {
    pub path: Seq<char>,
    pub kind: WalkKind,
}

/// One entry the ignore-aware directory walk yielded.
#[derive(Debug)]
pub struct WalkEntry {
    pub path: String,
    pub kind: WalkKind,
}

impl View for WalkEntry {
    type V = EntryView;

    open spec fn view(&self) -> EntryView {
        EntryView { path: self.path@, kind: self.kind }
    }
}

impl DeepView for WalkEntry {
    type V = EntryView;

    open spec fn deep_view(&self) -> EntryView {
        self.view()
    }
}

/// Ghost image of a planned archive member.
pub ghost struct ItemView {
    pub path: Seq<char>,
    pub name: Seq<char>,
}

/// One planned archive member: the file on disk and its entry name
/// relative to the application root.
#[derive(Debug)]
pub struct ArchiveItem {
    pub path: String,
    pub name: String,
}

impl View for ArchiveItem {
    type V = ItemView;

    open spec fn view(&self) -> ItemView {
        ItemView { path: self.path@, name: self.name@ }
    }
}

impl DeepView for ArchiveItem {
    type V = ItemView;

    open spec fn deep_view(&self) -> ItemView {
        self.view()
    }
}

/// Once one entry spoils the plan, every extension of it is spoiled.
pub proof fn lemma_plan_none(app: Seq<char>, es: Seq<EntryView>, i: int)
    requires
        0 <= i < es.len(),
        plan_spec(app, es.take(i + 1)) is None,
    ensures
        plan_spec(app, es) is None,
    decreases es.len(),
{
    if es.len() == i + 1 {
        assert(es.take(i + 1) =~= es);
    } else {
        assert(es.drop_last().take(i + 1) =~= es.take(i + 1));
        lemma_plan_none(app, es.drop_last(), i);
    }
}

/// `p` relative to the root `app`: strip the root and its separator.
/// `None` when `p` does not lie under `app`.
pub open spec fn rel_name(app: Seq<char>, p: Seq<char>) -> Option<Seq<char>> {
    if app.len() == 0 {
        Some(p)
    } else {
        let pre = if app.last() == '/' {
            app
        } else {
            app.push('/')
        };
        if pre.len() <= p.len() && p.subrange(0, pre.len() as int) == pre {
            Some(p.subrange(pre.len() as int, p.len() as int))
        } else if p == app {
            Some(Seq::<char>::empty())
        } else {
            None
        }
    }
}

/// The archive plan for the walked entries, in walk order: every regular
/// file under its root-relative name, nothing else; a file outside the
/// root spoils the plan.
pub open spec fn plan_spec(app: Seq<char>, es: Seq<EntryView>) -> Option<Seq<ItemView>>
    decreases es.len(),
{
    if es.len() == 0 {
        Some(Seq::<ItemView>::empty())
    } else {
        match plan_spec(app, es.drop_last()) {
            None => None,
            Some(rest) => {
                let e = es.last();
                if e.kind is File {
                    match rel_name(app, e.path) {
                        None => None,
                        Some(n) => Some(rest.push(ItemView { path: e.path, name: n })),
                    }
                } else {
                    Some(rest)
                }
            },
        }
    }
}

/// Whether `a` and `b` agree on their first `upto` characters.
fn chars_eq_upto(a: &str, b: &str, upto: usize) -> (r: bool)
    requires
        upto <= a@.len(),
        upto <= b@.len(),
    ensures
        r <==> (forall|k: int| 0 <= k < upto ==> a@[k] == b@[k]),
{
    let mut i: usize = 0;
    while i < upto
        invariant
            upto <= a@.len(),
            upto <= b@.len(),
            i <= upto,
            forall|k: int| 0 <= k < i ==> a@[k] == b@[k],
        decreases upto - i,
    {
        if a.get_char(i) != b.get_char(i) {
            assert(a@[i as int] != b@[i as int]);
            return false;
        }
        i += 1;
    }
    true
}

/// `p` relative to the root `app`, executably.
pub fn rel_name_of(appdir: &str, path: &str) -> (r: Option<String>)
    ensures
        match r {
            Some(s) => rel_name(appdir@, path@) == Some(s@),
            None => rel_name(appdir@, path@) is None,
        },
{
    let alen = appdir.unicode_len();
    let plen = path.unicode_len();
    if alen == 0 {
        return Some(path.to_owned());
    }
    let ends_slash = appdir.get_char(alen - 1) == '/';
    let ghost pre = if appdir@.last() == '/' {
        appdir@
    } else {
        appdir@.push('/')
    };
    let can_prefix = if ends_slash {
        alen <= plen
    } else {
        alen < plen
    };
    if can_prefix {
        let prelen = if ends_slash {
            alen
        } else {
            alen + 1
        };
        proof {
            assert(pre.len() == prelen);
        }
        let matched = chars_eq_upto(path, appdir, alen);
        let sep_ok = if ends_slash {
            true
        } else {
            path.get_char(alen) == '/'
        };
        if matched && sep_ok {
            proof {
                assert forall|k: int| 0 <= k < prelen implies path@[k] == pre[k] by {
                    if k < alen {
                        assert(pre[k] == appdir@[k]);
                    } else {
                        assert(pre[k] == '/');
                    }
                }
                assert(path@.subrange(0, prelen as int) =~= pre);
            }
            return Some(path.substring_char(prelen, plen).to_owned());
        }
        proof {
            if path@.subrange(0, prelen as int) == pre {
                assert forall|k: int| 0 <= k < alen implies path@[k] == appdir@[k] by {
                    assert(path@.subrange(0, prelen as int)[k] == pre[k]);
                    assert(pre[k] == appdir@[k]);
                }
                if !(appdir@.last() == '/') {
                    assert(path@.subrange(0, prelen as int)[alen as int] == pre[alen as int]);
                    assert(path@[alen as int] == '/');
                }
                assert(false);
            }
            if path@ == appdir@ {
                assert(path@[alen - 1] == appdir@[alen - 1]);
            }
        }
        if crate::text::str_eq(path, appdir) {
            let empty = String::new();
            proof {
                assert(empty@ =~= Seq::<char>::empty());
            }
            return Some(empty);
        }
        return None;
    }
    proof {
        assert(pre.len() > plen);
    }
    if crate::text::str_eq(path, appdir) {
        let empty = String::new();
        proof {
            assert(empty@ =~= Seq::<char>::empty());
        }
        return Some(empty);
    }
    None
}

/// Plans the application archive from the walked entries: regular files
/// are archived under their root-relative names, directories and failed
/// entries are skipped, and a file outside the root fails the build.
pub fn bundle_plan(appdir: &str, entries: &Vec<WalkEntry>) -> (r: Result<Vec<ArchiveItem>, Error>)
    ensures
        match r {
            Ok(v) => plan_spec(appdir@, entries.deep_view()) == Some(v.deep_view()),
            Err(e) => plan_spec(appdir@, entries.deep_view()) is None && e is PathPrefix,
        },
{
    let mut items: Vec<ArchiveItem> = Vec::new();
    proof {
        assert(items.deep_view() =~= Seq::<ItemView>::empty());
        assert(entries.deep_view().take(0) =~= Seq::<EntryView>::empty());
    }
    let n = entries.len();
    let mut i: usize = 0;
    while i < n
        invariant
            n == entries.len(),
            i <= n,
            plan_spec(appdir@, entries.deep_view().take(i as int)) == Some(items.deep_view()),
        decreases n - i,
    {
        let ghost pre = entries.deep_view().take(i as int);
        let ghost cur = entries.deep_view().take(i as int + 1);
        proof {
            assert(cur.drop_last() =~= pre);
            assert(cur.last() == entries.deep_view()[i as int]);
        }
        let e = &entries[i];
        let ghost items_pre = items.deep_view();
        match e.kind {
            WalkKind::File => {
                match rel_name_of(appdir, e.path.as_str()) {
                    Some(name) => {
                        let ghost nv = name@;
                        let item = ArchiveItem { path: e.path.clone(), name };
                        items.push(item);
                        proof {
                            assert(items.deep_view() =~= items_pre.push(
                                ItemView { path: cur.last().path, name: nv },
                            ));
                        }
                    },
                    None => {
                        proof {
                            assert(plan_spec(appdir@, cur) is None);
                            lemma_plan_none(appdir@, entries.deep_view(), i as int);
                        }
                        return Err(Error::PathPrefix(e.path.clone()));
                    },
                }
            },
            WalkKind::Directory => {},
            WalkKind::Failed => {},
        }
        i += 1;
    }
    proof {
        assert(entries.deep_view().take(n as int) =~= entries.deep_view());
    }
    Ok(items)
}

} // verus!
