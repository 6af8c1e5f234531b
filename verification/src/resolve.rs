//! Recursive resolution of referenced ledger files, run as a step machine:
//! the caller reads and parses each file the machine asks for and hands the
//! parsed document back, while the machine merges items, resolves each
//! referenced path against the referencing file's directory, and refuses a
//! chain of references that returns to a file still being resolved.
//!
//! Merge order: a file's own items first, then — depth first, in reference
//! order — the items of each file it references. Referencing the same file
//! twice along different branches duplicates its items by design; only a
//! cycle through files still on the active chain is an error.
use vstd::prelude::*;
use crate::doc::{clone_item, clone_string, Item, ItemV, LedgerDocument};
use crate::errors::LedgerError;
use crate::convert::string_eq;

verus! {

broadcast use {
    vstd::seq_lib::group_filter_ensures,
    Seq::<_>::lemma_filter_push,
};

/// One file on the active chain: its path, its directory, the paths it
/// references, and how many of them were already taken up.
pub struct Frame {
    pub path: String,
    pub dir: String,
    pub refs: Vec<String>,
    pub next: usize,
}

pub ghost struct FrameV {
    pub path: Seq<char>,
    pub dir: Seq<char>,
    pub refs: Seq<Seq<char>>,
    pub next: int,
}

impl View for Frame {
    type V = FrameV;

    open spec fn view(&self) -> FrameV {
        FrameV {
            path: self.path@,
            dir: self.dir@,
            refs: self.refs@.map_values(|s: String| s@),
            next: self.next as int,
        }
    }
}

pub ghost struct ResolverV {
    pub items: Seq<ItemV>,
    pub frames: Seq<FrameV>,
    pub pending: Option<Seq<char>>,
}

/// The resolution machine.
pub struct Resolver {
    items: Vec<Item>,
    frames: Vec<Frame>,
    pending: Option<String>,
}

impl View for Resolver {
    type V = ResolverV;

    closed spec fn view(&self) -> ResolverV {
        ResolverV {
            items: self.items@.map_values(|it: Item| it@),
            frames: self.frames@.map_values(|f: Frame| f@),
            pending: match self.pending {
                Some(p) => Some(p@),
                None => None,
            },
        }
    }
}

pub open spec fn active_paths(frames: Seq<FrameV>) -> Seq<Seq<char>> {
    frames.map_values(|f: FrameV| f.path)
}

impl Resolver {
    /// No file appears twice on the active chain, and a requested file is
    /// not on it either.
    pub open spec fn wf(self) -> bool {
        &&& forall|i: int, j: int|
            0 <= i < j < self@.frames.len() ==> (#[trigger] self@.frames[i]).path != (
            #[trigger] self@.frames[j]).path
        &&& match self@.pending {
            Some(p) => forall|i: int|
                0 <= i < self@.frames.len() ==> (#[trigger] self@.frames[i]).path != p,
            None => true,
        }
        &&& forall|i: int|
            0 <= i < self@.frames.len() ==> (#[trigger] self@.frames[i]).next <= self@.frames[i].refs.len()
        &&& forall|i: int| 0 <= i < self@.items.len() ==> (#[trigger] self@.items[i]).wf()
    }

    /// Begin resolving at the root file.
    pub fn new(root: &String) -> (r: Resolver)
        ensures
            r.wf(),
            r@.items == Seq::<ItemV>::empty(),
            r@.frames == Seq::<FrameV>::empty(),
            r@.pending == Some(root@),
    {
        let r = Resolver { items: Vec::new(), frames: Vec::new(), pending: Some(clone_string(root)) };
        proof {
            assert(r@.items =~= Seq::<ItemV>::empty());
            assert(r@.frames =~= Seq::<FrameV>::empty());
        }
        r
    }

    /// The path whose text the machine wants next, or `None` when resolution
    /// has finished.
    pub fn next_request(&self) -> (r: Option<String>)
        ensures
            match r {
                Some(p) => self@.pending == Some(p@),
                None => self@.pending is None,
            },
    {
        match &self.pending {
            Some(p) => Some(clone_string(p)),
            None => None,
        }
    }

    /// The merged document, once nothing further is requested.
    pub fn take_document(self) -> (r: LedgerDocument)
        requires
            self.wf(),
            self@.pending is None,
        ensures
            r@.items == self@.items,
            r@.wf(),
    {
        let r = LedgerDocument { items: self.items };
        proof {
            assert(r@.items =~= self@.items);
        }
        r
    }
}

/// Is the path among the active frames' paths?
fn path_on_chain(frames: &Vec<Frame>, p: &String) -> (r: bool)
    ensures
        r == active_paths(frames@.map_values(|f: Frame| f@)).contains(p@),
{
    let ghost fsv = frames@.map_values(|f: Frame| f@);
    let mut i: usize = 0;
    while i < frames.len()
        invariant
            i <= frames.len(),
            fsv == frames@.map_values(|f: Frame| f@),
            forall|j: int| 0 <= j < i ==> (#[trigger] fsv[j]).path != p@,
        decreases frames.len() - i,
    {
        proof {
            assert(fsv[i as int] == frames@[i as int]@);
            assert(active_paths(fsv)[i as int] == fsv[i as int].path);
        }
        if string_eq(&frames[i].path, p) {
            return true;
        }
        i = i + 1;
    }
    proof {
        assert forall|j: int| 0 <= j < active_paths(fsv).len() implies active_paths(fsv)[j]
            != p@ by {
            assert(active_paths(fsv)[j] == fsv[j].path);
        }
    }
    false
}

/// The index just past the last `/` of the path, or 0 where it has none.
pub open spec fn dir_split(s: Seq<char>, i: int) -> int
    recommends
        0 <= i <= s.len(),
    decreases i,
{
    if i <= 0 {
        0
    } else if s[i - 1] == '/' {
        i - 1
    } else {
        dir_split(s, i - 1)
    }
}

/// The directory part of a path: everything before the last `/`, or `.` for
/// a bare file name.
pub open spec fn spec_parent_dir(s: Seq<char>) -> Seq<char> {
    let e = dir_split(s, s.len() as int);
    if e == 0 && (s.len() == 0 || s[0] != '/') {
        seq!['.']
    } else {
        s.take(e)
    }
}

proof fn lemma_dir_split_bounds(s: Seq<char>, i: int)
    requires
        0 <= i <= s.len(),
    ensures
        0 <= dir_split(s, i) <= s.len(),
    decreases i,
{
    if i > 0 && s[i - 1] != '/' {
        lemma_dir_split_bounds(s, i - 1);
    }
}

/// The directory of a path.
fn parent_dir(path: &String) -> (r: String)
    ensures
        r@ == spec_parent_dir(path@),
{
    let len = path.as_str().unicode_len();
    let mut i: usize = len;
    while i > 0 && path.as_str().get_char(i - 1) != '/'
        invariant
            i <= len,
            len == path@.len(),
            dir_split(path@, len as int) == dir_split(path@, i as int),
            forall|m: int| i <= m < len ==> path@[m] != '/',
        decreases i,
    {
        i = i - 1;
    }
    proof {
        lemma_dir_split_bounds(path@, len as int);
    }
    if i == 0 {
        proof {
            reveal_strlit(".");
            assert("."@ =~= seq!['.']);
        }
        String::from_str(".")
    } else {
        let e = i - 1;
        proof {
            assert(path@[i - 1] == '/');
            assert(dir_split(path@, len as int) == e);
            if e == 0 {
                assert(path@[0] == '/');
            }
        }
        path.as_str().substring_char(0, e).to_owned()
    }
}

/// A referenced path, resolved against the referencing file's directory.
pub open spec fn spec_join_path(dir: Seq<char>, rel: Seq<char>) -> Seq<char> {
    dir + "/"@ + rel
}

fn join_path(dir: &String, rel: &String) -> (r: String)
    ensures
        r@ == spec_join_path(dir@, rel@),
{
    let mut out = clone_string(dir);
    out.append("/");
    out.append(rel.as_str());
    out
}

/// Is the item a file-reference directive?
pub open spec fn is_file_ref(it: ItemV) -> bool {
    it is FileRef
}

/// The referenced path an item carries.
pub open spec fn ref_path_of(it: ItemV) -> Seq<char> {
    match it {
        ItemV::FileRef(p) => p,
        _ => Seq::empty(),
    }
}

/// The paths a file's items reference, in item order.
pub open spec fn file_refs(items: Seq<ItemV>) -> Seq<Seq<char>> {
    items.filter(|it: ItemV| is_file_ref(it)).map_values(|it: ItemV| ref_path_of(it))
}

/// One advance of the walk: drop finished frames from the top of the chain;
/// at the deepest frame still holding an unconsumed reference, consume it and
/// name the joined child path; with no frame left, the walk is done.
pub open spec fn spec_advance(frames: Seq<FrameV>) -> (Seq<FrameV>, Option<Seq<char>>)
    decreases frames.len(),
{
    if frames.len() == 0 {
        (frames, None::<Seq<char>>)
    } else {
        let top = frames.last();
        if top.next < top.refs.len() {
            (
                frames.drop_last().push(
                    (FrameV { path: top.path, dir: top.dir, refs: top.refs, next: top.next + 1 }),
                ),
                Some(spec_join_path(top.dir, top.refs[top.next])),
            )
        } else {
            spec_advance(frames.drop_last())
        }
    }
}

impl Resolver {
    /// Hand the machine the parsed contents of the file it asked for. Its
    /// items are appended to the merged document; a frame carrying the paths
    /// of its file-reference items, in order, joins the chain, its directory
    /// the supplied file's own. The walk then advances: the next request is
    /// the deepest unconsumed reference joined to its frame's directory, or
    /// nothing when every frame is finished; a reference back to a file on
    /// the active chain is a cycle and is refused.
    pub fn supply(&mut self, file: &LedgerDocument) -> (r: Result<(), LedgerError>)
        requires
            old(self).wf(),
            old(self)@.pending is Some,
            file@.wf(),
        ensures
            final(self).wf(),
            final(self)@.items == old(self)@.items + file@.items,
            ({
                let pushed = old(self)@.frames.push(
                    (FrameV {
                        path: old(self)@.pending->Some_0,
                        dir: spec_parent_dir(old(self)@.pending->Some_0),
                        refs: file_refs(file@.items),
                        next: 0,
                    }),
                );
                let stepped = spec_advance(pushed);
                final(self)@.frames == stepped.0 && match stepped.1 {
                    None => r is Ok && final(self)@.pending is None,
                    Some(p) => if active_paths(stepped.0).contains(p) {
                        &&& r matches Err(e)
                        &&& e matches LedgerError::RefCycle(q) && q@ == p
                        &&& final(self)@.pending is None
                    } else {
                        &&& r is Ok
                        &&& final(self)@.pending == Some(p)
                    },
                }
            }),
    {
        let path = match &self.pending {
            Some(p) => clone_string(p),
            None => {
                proof {
                    assert(false);
                }
                String::new()
            },
        };
        self.pending = None;
        let ghost olditems = self@.items;
        proof {
            assert(olditems + file@.items.take(0) =~= olditems);
            assert(olditems == old(self)@.items);
        }
        // merge this file's items after everything gathered so far
        let mut i: usize = 0;
        while i < file.items.len()
            invariant
                i <= file.items.len(),
                file@.wf(),
                self@.items == olditems + file@.items.take(i as int),
                forall|m: int| 0 <= m < self@.items.len() ==> (#[trigger] self@.items[m]).wf(),
                self@.frames == old(self)@.frames,
                self@.pending is None,
                old(self).wf(),
                olditems == old(self)@.items,
            decreases file.items.len() - i,
        {
            let ghost prev = self@.items;
            self.items.push(clone_item(&file.items[i]));
            proof {
                assert(file@.items[i as int] == file.items@[i as int]@);
                assert(self@.items =~= prev.push(file@.items[i as int]));
                assert(olditems + file@.items.take(i + 1) =~= (olditems + file@.items.take(
                    i as int,
                )).push(file@.items[i as int]));
            }
            i = i + 1;
        }
        proof {
            assert(file@.items.take(file.items@.len() as int) =~= file@.items);
        }
        // gather the referenced paths, in order
        let mut refs: Vec<String> = Vec::new();
        proof {
            assert(file@.items.take(0) =~= Seq::<ItemV>::empty());
            assert(file_refs(file@.items.take(0)) =~= Seq::<Seq<char>>::empty());
            assert(refs@.map_values(|s: String| s@) =~= Seq::<Seq<char>>::empty());
        }
        let mut j: usize = 0;
        while j < file.items.len()
            invariant
                j <= file.items.len(),
                self@.items == olditems + file@.items,
                forall|m: int| 0 <= m < self@.items.len() ==> (#[trigger] self@.items[m]).wf(),
                self@.frames == old(self)@.frames,
                self@.pending is None,
                old(self).wf(),
                refs@.map_values(|s: String| s@) == file_refs(file@.items.take(j as int)),
            decreases file.items.len() - j,
        {
            proof {
                assert(file@.items[j as int] == file.items@[j as int]@);
                assert(file@.items.take(j + 1) =~= file@.items.take(j as int).push(
                    file@.items[j as int],
                ));
            }
            let ghost f = |it: ItemV| is_file_ref(it);
            let ghost m = |it: ItemV| ref_path_of(it);
            match &file.items[j] {
                Item::FileRef(p) => {
                    let ghost prev = refs@.map_values(|s: String| s@);
                    refs.push(clone_string(p));
                    proof {
                        assert(f(file@.items[j as int]));
                        assert(file@.items.take(j + 1).filter(f) =~= file@.items.take(
                            j as int,
                        ).filter(f).push(file@.items[j as int]));
                        assert(m(file@.items[j as int]) == p@);
                        assert(refs@.map_values(|s: String| s@) =~= prev.push(p@));
                        assert(file_refs(file@.items.take(j + 1)) =~= prev.push(p@));
                    }
                },
                _ => {
                    proof {
                        assert(!f(file@.items[j as int]));
                        assert(file@.items.take(j + 1).filter(f) =~= file@.items.take(
                            j as int,
                        ).filter(f));
                        assert(file_refs(file@.items.take(j + 1)) =~= file_refs(
                            file@.items.take(j as int),
                        ));
                    }
                },
            }
            j = j + 1;
        }
        proof {
            assert(file@.items.take(file.items@.len() as int) =~= file@.items);
        }
        let dir = parent_dir(&path);
        let ghost pathv = path@;
        let ghost pushed = old(self)@.frames.push(
            FrameV {
                path: pathv,
                dir: spec_parent_dir(pathv),
                refs: file_refs(file@.items),
                next: 0,
            },
        );
        self.frames.push(Frame { path, dir, refs, next: 0 });
        proof {
            assert(self@.frames =~= pushed);
            assert(old(self)@.pending == Some(pathv));
        }
        // walk to the next referenced file, dropping finished frames
        loop
            invariant
                olditems == old(self)@.items,
                self@.items == olditems + file@.items,
                forall|m: int| 0 <= m < self@.items.len() ==> (#[trigger] self@.items[m]).wf(),
                self@.pending is None,
                pushed == old(self)@.frames.push(
                    FrameV {
                        path: old(self)@.pending->Some_0,
                        dir: spec_parent_dir(old(self)@.pending->Some_0),
                        refs: file_refs(file@.items),
                        next: 0,
                    },
                ),
                spec_advance(pushed) == spec_advance(self@.frames),
                forall|a: int, b: int|
                    0 <= a < b < self@.frames.len() ==> (#[trigger] self@.frames[a]).path != (
                    #[trigger] self@.frames[b]).path,
                forall|a: int|
                    0 <= a < self@.frames.len() ==> (#[trigger] self@.frames[a]).next
                        <= self@.frames[a].refs.len(),
            decreases self.frames.len(),
        {
            if self.frames.len() == 0 {
                proof {
                    assert(spec_advance(self@.frames) == (self@.frames, None::<Seq<char>>));
                }
                return Ok(());
            }
            let ghost pre_frames = self@.frames;
            let top = match self.frames.pop() {
                Some(f) => f,
                None => {
                    proof {
                        assert(false);
                    }
                    return Ok(());
                },
            };
            let ghost topv = top@;
            proof {
                assert(self@.frames =~= pre_frames.drop_last());
                assert(topv == pre_frames.last());
            }
            if top.next < top.refs.len() {
                proof {
                    assert(topv.refs[topv.next] == top.refs@[top.next as int]@);
                }
                let child = join_path(&top.dir, &top.refs[top.next]);
                let moved = Frame {
                    path: top.path,
                    dir: top.dir,
                    refs: top.refs,
                    next: top.next + 1,
                };
                let ghost movedv = moved@;
                self.frames.push(moved);
                proof {
                    assert(self@.frames =~= pre_frames.drop_last().push(movedv));
                    assert(movedv =~= (FrameV {
                        path: topv.path,
                        dir: topv.dir,
                        refs: topv.refs,
                        next: topv.next + 1,
                    }));
                    assert(spec_advance(pre_frames) == (self@.frames, Some(child@)));
                    assert(movedv.path == pre_frames.last().path);
                    assert forall|a: int, b: int|
                        0 <= a < b < self@.frames.len() implies (#[trigger] self@.frames[a]).path
                        != (#[trigger] self@.frames[b]).path by {
                        if b == self@.frames.len() - 1 {
                            assert(pre_frames[a].path != pre_frames[pre_frames.len() - 1].path);
                        }
                    }
                }
                if path_on_chain(&self.frames, &child) {
                    return Err(LedgerError::RefCycle(child));
                }
                proof {
                    assert forall|a: int|
                        0 <= a < self@.frames.len() implies (#[trigger] self@.frames[a]).path
                        != child@ by {
                        if self@.frames[a].path == child@ {
                            assert(active_paths(self@.frames)[a] == self@.frames[a].path);
                            assert(active_paths(self@.frames).contains(child@));
                        }
                    }
                }
                self.pending = Some(child);
                return Ok(());
            }
            proof {
                assert(!(topv.next < topv.refs.len()));
                assert(spec_advance(pre_frames) == spec_advance(pre_frames.drop_last()));
            }
        }
    }
}

} // verus!
