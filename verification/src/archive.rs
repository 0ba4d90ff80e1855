//! Extraction planning for the bundled site template. The surrounding
//! application reads the archive's entries and executes filesystem actions;
//! everything decided here — which entries are safe, which become
//! directories, which become files with which bytes and permission bits — is
//! pinned down by `extraction_plan` and proved exact.

use vstd::prelude::*;

use crate::state::clone_bytes;

verus! {

/// One archive entry as plain values: the stored name ('/'-separated, a
/// trailing slash marks a directory), the decompressed bytes, and the Unix
/// permission bits when the archive carries them.
pub struct ArchiveEntry {
    pub name: Vec<u8>,
    pub data: Vec<u8>,
    pub mode: Option<u32>,
}

/// Mathematical value of an [`ArchiveEntry`].
pub ghost struct ArchiveEntryV {
    pub name: Seq<u8>,
    pub data: Seq<u8>,
    pub mode: Option<u32>,
}

impl View for ArchiveEntry {
    type V = ArchiveEntryV;

    open spec fn view(&self) -> ArchiveEntryV {
        ArchiveEntryV { name: self.name@, data: self.data@, mode: self.mode }
    }
}

impl DeepView for ArchiveEntry {
    type V = ArchiveEntryV;

    open spec fn deep_view(&self) -> ArchiveEntryV {
        self@
    }
}

/// A filesystem action of an extraction plan; paths are relative to the
/// destination root. Executing an action creates the missing parent
/// directories, makes the directory or writes the bytes (overwriting an
/// existing file), then applies the permission bits to the resulting
/// filesystem object where the platform has them.
pub enum FsAction {
    MakeDir { path: Vec<u8>, mode: Option<u32> },
    WriteFile { path: Vec<u8>, data: Vec<u8>, mode: Option<u32> },
}

/// Mathematical value of an [`FsAction`].
pub ghost enum FsActionV {
    MakeDir { path: Seq<u8>, mode: Option<u32> },
    WriteFile { path: Seq<u8>, data: Seq<u8>, mode: Option<u32> },
}

impl View for FsAction {
    type V = FsActionV;

    open spec fn view(&self) -> FsActionV {
        match self {
            FsAction::MakeDir { path, mode } => FsActionV::MakeDir { path: path@, mode: *mode },
            FsAction::WriteFile { path, data, mode } => FsActionV::WriteFile {
                path: path@,
                data: data@,
                mode: *mode,
            },
        }
    }
}

impl DeepView for FsAction {
    type V = FsActionV;

    open spec fn deep_view(&self) -> FsActionV {
        self@
    }
}

/// The path of an action.
pub open spec fn action_path(a: FsActionV) -> Seq<u8> {
    match a {
        FsActionV::MakeDir { path, .. } => path,
        FsActionV::WriteFile { path, .. } => path,
    }
}

/// Length of the name's leading '/'-separated segment.
pub open spec fn first_seg_len(s: Seq<u8>) -> nat
    decreases s.len(),
{
    if s.len() == 0 || s[0] == 0x2f {
        0
    } else {
        1 + first_seg_len(s.skip(1))
    }
}

/// A segment that resolves to the directory itself: empty or a single dot.
pub open spec fn seg_is_cur(c: Seq<u8>) -> bool {
    c.len() == 0 || (c.len() == 1 && c[0] == 0x2e)
}

/// A `..` segment, which steps up one directory level.
pub open spec fn seg_is_parent(c: Seq<u8>) -> bool {
    c.len() == 2 && c[0] == 0x2e && c[1] == 0x2e
}

/// Walking the '/'-separated segments from `depth` levels below the
/// destination never climbs above it: empty and `.` segments change
/// nothing, `..` steps up one level and must have a level to give, any
/// other segment steps down one level.
pub open spec fn depth_safe(s: Seq<u8>, depth: int) -> bool
    decreases s.len(),
{
    if s.len() == 0 {
        true
    } else {
        let k = first_seg_len(s);
        let seg = s.take(k as int);
        let rest = if k + 1 <= s.len() {
            s.skip(k as int + 1)
        } else {
            Seq::empty()
        };
        if seg_is_cur(seg) {
            depth_safe(rest, depth)
        } else if seg_is_parent(seg) {
            depth >= 1 && depth_safe(rest, depth - 1)
        } else {
            depth_safe(rest, depth + 1)
        }
    }
}

/// The name's resolved path cannot escape the directory it is joined to: it
/// is non-empty and relative, holds no NUL, and walking its segments never
/// steps above the destination — an interior `..` that stays inside (as in
/// `a/../b`) is allowed.
pub open spec fn enclosed(s: Seq<u8>) -> bool {
    &&& s.len() > 0
    &&& s[0] != 0x2f
    &&& forall|i: int| 0 <= i < s.len() ==> s[i] != 0
    &&& depth_safe(s, 0)
}

/// The action an entry gives rise to: none when the name would escape the
/// destination (the entry is skipped, never an error), a directory for a
/// trailing-slash marker, otherwise a file write. Either action carries the
/// entry's permission bits.
pub open spec fn entry_action(e: ArchiveEntryV) -> Option<FsActionV> {
    if !enclosed(e.name) {
        Option::None
    } else if e.name.last() == 0x2f {
        Option::Some(FsActionV::MakeDir { path: e.name, mode: e.mode })
    } else {
        Option::Some(FsActionV::WriteFile { path: e.name, data: e.data, mode: e.mode })
    }
}

/// The actions of one maybe-skipped entry.
pub open spec fn action_seq(e: ArchiveEntryV) -> Seq<FsActionV> {
    match entry_action(e) {
        Option::None => Seq::empty(),
        Option::Some(a) => seq![a],
    }
}

/// The full extraction plan: each entry's action, in archive order.
pub open spec fn extraction_plan(es: Seq<ArchiveEntryV>) -> Seq<FsActionV>
    decreases es.len(),
{
    if es.len() == 0 {
        Seq::empty()
    } else {
        extraction_plan(es.drop_last()) + action_seq(es.last())
    }
}

/// The leading segment of `s` is exactly its first `k` bytes.
proof fn lemma_first_seg_is(s: Seq<u8>, k: int)
    requires
        0 <= k <= s.len(),
        forall|j: int| 0 <= j < k ==> s[j] != 0x2f,
        k == s.len() || s[k] == 0x2f,
    ensures
        first_seg_len(s) == k,
    decreases k,
{
    if k > 0 {
        assert(s[0] != 0x2f);
        let t = s.skip(1);
        assert(forall|j: int| 0 <= j < k - 1 ==> t[j] == s[j + 1]);
        assert(k - 1 == t.len() || t[k - 1] == 0x2f);
        lemma_first_seg_is(t, k - 1);
    }
}

/// Whether a stored name is safe to join to the destination directory.
pub fn is_enclosed(name: &Vec<u8>) -> (r: bool)
    ensures
        r == enclosed(name@),
{
    let n = name.len();
    if n == 0 || name[0] == 0x2f {
        return false;
    }
    let mut depth: usize = 0;
    let mut seg_start: usize = 0;
    let mut i: usize = 0;
    proof {
        assert(name@.skip(0) =~= name@);
    }
    while i < n
        invariant
            n == name@.len(),
            seg_start <= i <= n,
            depth <= i,
            n > 0 && name@[0] != 0x2f,
            forall|j: int| 0 <= j < i ==> name@[j] != 0,
            forall|j: int| seg_start <= j < i ==> name@[j] != 0x2f,
            depth_safe(name@, 0) == depth_safe(name@.skip(seg_start as int), depth as int),
        decreases n - i,
    {
        let b = name[i];
        if b == 0 {
            return false;
        }
        if b == 0x2f {
            let ghost tail = name@.skip(seg_start as int);
            let ghost k = i - seg_start;
            proof {
                assert(forall|j: int| 0 <= j < k ==> tail[j] == name@[seg_start + j]);
                lemma_first_seg_is(tail, k as int);
                assert(tail.take(k as int) =~= name@.subrange(seg_start as int, i as int));
                assert(tail.skip(k as int + 1) =~= name@.skip(i as int + 1));
            }
            let len = i - seg_start;
            let cur = len == 0 || (len == 1 && name[seg_start] == 0x2e);
            let parent = len == 2 && name[seg_start] == 0x2e && name[seg_start + 1] == 0x2e;
            proof {
                let seg = tail.take(k as int);
                assert(seg.len() == k);
                assert(forall|j: int| 0 <= j < k ==> seg[j] == name@[seg_start + j]);
                assert(seg_is_cur(seg) == cur);
                assert(seg_is_parent(seg) == parent);
            }
            if cur {
            } else if parent {
                if depth == 0 {
                    return false;
                }
                depth = depth - 1;
            } else {
                depth = depth + 1;
            }
            seg_start = i + 1;
        }
        i = i + 1;
    }
    // the final segment, after the last separator
    let ghost tail = name@.skip(seg_start as int);
    let ghost k = n - seg_start;
    proof {
        assert(forall|j: int| 0 <= j < k ==> tail[j] == name@[seg_start + j]);
        lemma_first_seg_is(tail, k as int);
    }
    let len = n - seg_start;
    let cur = len == 0 || (len == 1 && name[seg_start] == 0x2e);
    let parent = len == 2 && name[seg_start] == 0x2e && name[seg_start + 1] == 0x2e;
    proof {
        reveal_with_fuel(depth_safe, 2);
        if k > 0 {
            let seg = tail.take(k as int);
            assert(seg.len() == k);
            assert(forall|j: int| 0 <= j < k ==> seg[j] == name@[seg_start + j]);
            assert(seg_is_cur(seg) == cur);
            assert(seg_is_parent(seg) == parent);
            assert(depth_safe(tail, depth as int) == if seg_is_cur(seg) {
                true
            } else if seg_is_parent(seg) {
                depth >= 1
            } else {
                true
            });
        } else {
            assert(tail.len() == 0);
            assert(depth_safe(tail, depth as int));
        }
    }
    if parent && depth == 0 {
        false
    } else {
        true
    }
}

/// Compute the extraction plan for the entries of a template archive, in
/// archive order: unsafe names are skipped, trailing-slash markers become
/// directories, every other entry becomes a file write with exactly the
/// entry's bytes and permission bits.
pub fn plan_extraction(entries: &Vec<ArchiveEntry>) -> (plan: Vec<FsAction>)
    ensures
        plan.deep_view() == extraction_plan(entries.deep_view()),
{
    let ghost all = entries.deep_view();
    let mut plan: Vec<FsAction> = Vec::new();
    let mut i: usize = 0;
    proof {
        assert(all.take(0) =~= Seq::<ArchiveEntryV>::empty());
        assert(plan.deep_view() =~= extraction_plan(all.take(0)));
    }
    while i < entries.len()
        invariant
            i <= entries.len(),
            all == entries.deep_view(),
            plan.deep_view() == extraction_plan(all.take(i as int)),
        decreases entries.len() - i,
    {
        let ghost before = plan.deep_view();
        let e = &entries[i];
        proof {
            assert(e@ == all[i as int]);
        }
        if is_enclosed(&e.name) {
            let last = e.name[e.name.len() - 1];
            if last == 0x2f {
                let a = FsAction::MakeDir { path: clone_bytes(&e.name), mode: e.mode };
                proof {
                    assert(entry_action(e@) == Option::Some(a@));
                }
                plan.push(a);
                proof {
                    assert(plan.deep_view() =~= before.push(entry_action(all[i as int]).unwrap()));
                }
            } else {
                let a = FsAction::WriteFile {
                    path: clone_bytes(&e.name),
                    data: clone_bytes(&e.data),
                    mode: e.mode,
                };
                proof {
                    assert(entry_action(e@) == Option::Some(a@));
                }
                plan.push(a);
                proof {
                    assert(plan.deep_view() =~= before.push(entry_action(all[i as int]).unwrap()));
                }
            }
        }
        i = i + 1;
        proof {
            let j = i - 1;
            assert(all.take(j + 1).drop_last() =~= all.take(j));
            assert(all.take(j + 1).last() == all[j]);
            assert(extraction_plan(all.take(j + 1)) == extraction_plan(all.take(j)) + action_seq(
                all[j],
            ));
            assert(plan.deep_view() =~= extraction_plan(all.take(i as int)));
        }
    }
    proof {
        assert(all.take(entries@.len() as int) =~= all);
    }
    plan
}

/// The extraction plan is exactly the safe entries and nothing else: every
/// planned path is enclosed; every enclosed entry's action is in the plan —
/// in particular a file entry is written with exactly its bytes — and every
/// planned action comes from some entry.
pub proof fn lemma_extraction_plan_exact(es: Seq<ArchiveEntryV>)
    ensures
        forall|k: int|
            0 <= k < extraction_plan(es).len() ==> enclosed(
                action_path(#[trigger] extraction_plan(es)[k]),
            ),
        forall|k: int|
            0 <= k < es.len() && entry_action(#[trigger] es[k]) is Some ==> extraction_plan(
                es,
            ).contains(entry_action(es[k]).unwrap()),
        forall|k: int|
            0 <= k < extraction_plan(es).len() ==> exists|j: int|
                0 <= j < es.len() && entry_action(es[j]) == Option::Some(
                    #[trigger] extraction_plan(es)[k],
                ),
    decreases es.len(),
{
    if es.len() > 0 {
        let head = es.drop_last();
        let e = es.last();
        lemma_extraction_plan_exact(head);
        assert(extraction_plan(es) == extraction_plan(head) + action_seq(e));
        let plan = extraction_plan(es);
        let hplan = extraction_plan(head);
        assert forall|k: int| 0 <= k < plan.len() implies enclosed(
            action_path(#[trigger] plan[k]),
        ) by {
            if k < hplan.len() {
                assert(plan[k] == hplan[k]);
            } else {
                assert(entry_action(e) is Some);
                assert(plan[k] == entry_action(e).unwrap());
            }
        }
        assert forall|k: int|
            0 <= k < es.len() && entry_action(#[trigger] es[k]) is Some implies plan.contains(
            entry_action(es[k]).unwrap(),
        ) by {
            if k < es.len() - 1 {
                assert(es[k] == head[k]);
                let a = entry_action(head[k]).unwrap();
                assert(hplan.contains(a));
                let m = choose|m: int| 0 <= m < hplan.len() && hplan[m] == a;
                assert(plan[m] == a);
            } else {
                assert(plan[plan.len() - 1] == entry_action(e).unwrap());
            }
        }
        assert forall|k: int| 0 <= k < plan.len() implies exists|j: int|
            0 <= j < es.len() && entry_action(es[j]) == Option::Some(#[trigger] plan[k]) by {
            if k < hplan.len() {
                assert(plan[k] == hplan[k]);
                let j = choose|j: int|
                    0 <= j < head.len() && entry_action(head[j]) == Option::Some(hplan[k]);
                assert(es[j] == head[j]);
                assert(entry_action(es[j]) == Option::Some(plan[k]));
            } else {
                assert(plan[k] == entry_action(e).unwrap());
                assert(entry_action(es[es.len() - 1]) == Option::Some(plan[k]));
            }
        }
    }
}

} // verus!
