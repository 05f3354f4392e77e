use vstd::prelude::*;
use crate::registry_comparator::{RegistryChange, ChangeView, PropView, DiffResult, KeyPropertyChange};
use crate::registry_key::{RegistryKey, KeyView, MetaUpdate, MetaUpdateView, split_path, segs_view, split_path_chars};
use crate::registry_value::spec_values_equal;
use crate::text::str_chars;

verus! {

broadcast use vstd::std_specs::vec::group_vec_axioms;

// ---------------------------------------------------------------------------
// Options and outcomes.
// ---------------------------------------------------------------------------
#[derive(Clone, Copy)]
pub struct PatchOptions {
    pub ignore_failures: bool,
    pub create_missing_keys: bool,
    pub overwrite_existing_values: bool,
    pub delete_empty_keys: bool,
    pub validate_before_apply: bool,
}

impl Default for PatchOptions {
    /// The safe defaults: stop at the first failure, create missing keys,
    /// allow overwrites, clean empty chains, no validation.
    fn default() -> (r: Self)
        ensures
            r == (PatchOptions {
                ignore_failures: false,
                create_missing_keys: true,
                overwrite_existing_values: true,
                delete_empty_keys: true,
                validate_before_apply: false,
            }),
    {
        PatchOptions {
            ignore_failures: false,
            create_missing_keys: true,
            overwrite_existing_values: true,
            delete_empty_keys: true,
            validate_before_apply: false,
        }
    }
}

pub struct PatchFailure {
    pub change: RegistryChange,
    pub reason: String,
}

pub struct FailureView {
    pub change: ChangeView,
    pub reason: Seq<char>,
}

impl View for PatchFailure {
    type V = FailureView;

    open spec fn view(&self) -> FailureView {
        FailureView { change: self.change@, reason: self.reason@ }
    }
}

impl DeepView for PatchFailure {
    type V = FailureView;

    open spec fn deep_view(&self) -> FailureView {
        self.view()
    }
}

pub struct PatchResult {
    pub applied: Vec<RegistryChange>,
    pub failed: Vec<PatchFailure>,
    pub ignore_failures: bool,
}

impl PatchResult {
    pub fn applied_count(&self) -> (r: usize)
        ensures
            r == self.applied.deep_view().len(),
    {
        self.applied.len()
    }

    pub fn failed_count(&self) -> (r: usize)
        ensures
            r == self.failed.deep_view().len(),
    {
        self.failed.len()
    }

    pub fn total_count(&self) -> (r: usize)
        requires
            self.applied@.len() + self.failed@.len() <= usize::MAX,
        ensures
            r == self.applied.deep_view().len() + self.failed.deep_view().len(),
    {
        self.applied.len() + self.failed.len()
    }

    /// Success means no failure was recorded, or failures were ignored.
    pub fn is_success(&self) -> (r: bool)
        ensures
            r == (self.failed.deep_view().len() == 0 || self.ignore_failures),
    {
        self.failed.len() == 0 || self.ignore_failures
    }
}

// ---------------------------------------------------------------------------
// Ordering: changes are applied in phases, with key additions shallow-first
// and key deletions deep-first; within a phase the input order is kept.
// ---------------------------------------------------------------------------

/// The number of backslashes in the change's path: its depth.
pub open spec fn count_bs(s: Seq<char>) -> nat
    decreases s.len(),
{
    if s.len() == 0 {
        0
    } else {
        (if s[0] == '\\' {
            1nat
        } else {
            0nat
        }) + count_bs(s.skip(1))
    }
}

pub open spec fn change_path(c: ChangeView) -> Seq<char> {
    match c {
        ChangeView::KeyAdded(p) => p,
        ChangeView::KeyDeleted(p) => p,
        ChangeView::KeyModified(p, _) => p,
        ChangeView::ValueAdded(p, _, _) => p,
        ChangeView::ValueDeleted(p, _, _) => p,
        ChangeView::ValueModified(p, _, _, _) => p,
    }
}

pub open spec fn depth_of(c: ChangeView) -> nat {
    count_bs(change_path(c))
}

pub open spec fn is_key_added(c: ChangeView) -> bool {
    c is KeyAdded
}

pub open spec fn is_key_deleted(c: ChangeView) -> bool {
    c is KeyDeleted
}

pub open spec fn is_key_modified(c: ChangeView) -> bool {
    c is KeyModified
}

pub open spec fn is_value_added(c: ChangeView) -> bool {
    c is ValueAdded
}

pub open spec fn is_value_deleted(c: ChangeView) -> bool {
    c is ValueDeleted
}

pub open spec fn is_value_modified(c: ChangeView) -> bool {
    c is ValueModified
}

/// The sub-list of changes of one kind, in input order.
pub open spec fn filter_kind(s: Seq<ChangeView>, kind: spec_fn(ChangeView) -> bool) -> Seq<
    ChangeView,
>
    decreases s.len(),
{
    if s.len() == 0 {
        Seq::empty()
    } else {
        (if kind(s[0]) {
            seq![s[0]]
        } else {
            Seq::empty()
        }) + filter_kind(s.skip(1), kind)
    }
}

/// Stable insertion into a run sorted by depth, ascending: the new change
/// goes after every change of equal or smaller depth.
pub open spec fn insert_by_depth_asc(s: Seq<ChangeView>, c: ChangeView) -> Seq<ChangeView>
    decreases s.len(),
{
    if s.len() == 0 {
        seq![c]
    } else if depth_of(c) < depth_of(s[0]) {
        seq![c] + s
    } else {
        seq![s[0]] + insert_by_depth_asc(s.skip(1), c)
    }
}

pub open spec fn sort_by_depth_asc(s: Seq<ChangeView>) -> Seq<ChangeView>
    decreases s.len(),
{
    if s.len() == 0 {
        Seq::empty()
    } else {
        insert_by_depth_asc(sort_by_depth_asc(s.drop_last()), s.last())
    }
}

/// Stable insertion, descending by depth.
pub open spec fn insert_by_depth_desc(s: Seq<ChangeView>, c: ChangeView) -> Seq<ChangeView>
    decreases s.len(),
{
    if s.len() == 0 {
        seq![c]
    } else if depth_of(c) > depth_of(s[0]) {
        seq![c] + s
    } else {
        seq![s[0]] + insert_by_depth_desc(s.skip(1), c)
    }
}

pub open spec fn sort_by_depth_desc(s: Seq<ChangeView>) -> Seq<ChangeView>
    decreases s.len(),
{
    if s.len() == 0 {
        Seq::empty()
    } else {
        insert_by_depth_desc(sort_by_depth_desc(s.drop_last()), s.last())
    }
}

/// The application order: key additions shallow-first, then key property
/// changes, value additions, value modifications, value deletions, and key
/// deletions deep-first.
pub open spec fn order_spec(s: Seq<ChangeView>) -> Seq<ChangeView> {
    sort_by_depth_asc(filter_kind(s, |c: ChangeView| is_key_added(c))) + filter_kind(
        s,
        |c: ChangeView| is_key_modified(c),
    ) + filter_kind(s, |c: ChangeView| is_value_added(c)) + filter_kind(
        s,
        |c: ChangeView| is_value_modified(c),
    ) + filter_kind(s, |c: ChangeView| is_value_deleted(c)) + sort_by_depth_desc(
        filter_kind(s, |c: ChangeView| is_key_deleted(c)),
    )
}

/// The depth of a change: how many backslashes its path holds.
pub fn depth(change: &RegistryChange) -> (r: usize)
    ensures
        r == depth_of(change@),
{
    let p: &String = match change {
        RegistryChange::KeyAdded(p) => p,
        RegistryChange::KeyDeleted(p) => p,
        RegistryChange::KeyModified(p, _) => p,
        RegistryChange::ValueAdded(p, _, _) => p,
        RegistryChange::ValueDeleted(p, _, _) => p,
        RegistryChange::ValueModified(p, _, _, _) => p,
    };
    let cs = str_chars(p.as_str());
    let mut n: usize = 0;
    let mut i: usize = 0;
    proof {
        assert(cs@.skip(0) =~= cs@);
    }
    while i < cs.len()
        invariant
            i <= cs@.len(),
            n <= i,
            count_bs(cs@) == n + count_bs(cs@.skip(i as int)),
        decreases cs@.len() - i,
    {
        proof {
            assert(cs@.skip(i as int)[0] == cs@[i as int]);
            assert(cs@.skip(i as int).skip(1) =~= cs@.skip(i as int + 1));
        }
        if cs[i] == '\\' {
            n += 1;
        }
        i += 1;
    }
    proof {
        assert(cs@.skip(cs@.len() as int) =~= Seq::<char>::empty());
    }
    n
}

proof fn lemma_insert_by_depth_positional(s: Seq<ChangeView>, c: ChangeView, pos: int, asc: bool)
    requires
        0 <= pos <= s.len(),
        asc ==> forall|j: int| 0 <= j < pos ==> depth_of(#[trigger] s[j]) <= depth_of(c),
        asc ==> (pos < s.len() ==> depth_of(c) < depth_of(s[pos])),
        !asc ==> forall|j: int| 0 <= j < pos ==> depth_of(#[trigger] s[j]) >= depth_of(c),
        !asc ==> (pos < s.len() ==> depth_of(c) > depth_of(s[pos])),
    ensures
        asc ==> insert_by_depth_asc(s, c) == s.insert(pos, c),
        !asc ==> insert_by_depth_desc(s, c) == s.insert(pos, c),
    decreases pos,
{
    if pos == 0 {
        if asc {
            assert(insert_by_depth_asc(s, c) =~= s.insert(0, c));
        } else {
            assert(insert_by_depth_desc(s, c) =~= s.insert(0, c));
        }
    } else {
        lemma_insert_by_depth_positional(s.skip(1), c, pos - 1, asc);
        if asc {
            assert(insert_by_depth_asc(s, c) =~= seq![s[0]] + insert_by_depth_asc(s.skip(1), c));
            assert(seq![s[0]] + s.skip(1).insert(pos - 1, c) =~= s.insert(pos, c));
        } else {
            assert(insert_by_depth_desc(s, c) =~= seq![s[0]] + insert_by_depth_desc(s.skip(1), c));
            assert(seq![s[0]] + s.skip(1).insert(pos - 1, c) =~= s.insert(pos, c));
        }
    }
}

/// Insertion-sort a filtered list by depth, keeping input order among equal
/// depths.
fn sort_changes_by_depth(input: Vec<RegistryChange>, asc: bool) -> (r: Vec<RegistryChange>)
    ensures
        asc ==> r.deep_view() == sort_by_depth_asc(input.deep_view()),
        !asc ==> r.deep_view() == sort_by_depth_desc(input.deep_view()),
{
    let ghost iv = input.deep_view();
    let mut r: Vec<RegistryChange> = Vec::new();
    let mut i: usize = 0;
    proof {
        assert(iv.take(0) =~= Seq::<ChangeView>::empty());
        if asc {
            assert(r.deep_view() =~= sort_by_depth_asc(iv.take(0)));
        } else {
            assert(r.deep_view() =~= sort_by_depth_desc(iv.take(0)));
        }
    }
    let n = input.len();
    let mut rest = input;
    while i < n
        invariant
            i <= n,
            n == iv.len(),
            rest.deep_view() == iv,
            rest@.len() == n,
            asc ==> r.deep_view() == sort_by_depth_asc(iv.take(i as int)),
            !asc ==> r.deep_view() == sort_by_depth_desc(iv.take(i as int)),
        decreases n - i,
    {
        proof {
            assert(rest@[i as int]@ == iv[i as int]);
        }
        let c = rest[i].duplicate();
        let d = depth(&c);
        // find the stable insertion point
        let mut pos: usize = 0;
        let mut scanning = pos < r.len();
        if scanning {
            let dp = depth(&r[pos]);
            scanning = if asc {
                dp <= d
            } else {
                dp >= d
            };
        }
        while scanning
            invariant
                pos <= r@.len(),
                scanning ==> pos < r@.len(),
                scanning == (pos < r@.len() && (if asc {
                    depth_of(r.deep_view()[pos as int]) <= depth_of(c@)
                } else {
                    depth_of(r.deep_view()[pos as int]) >= depth_of(c@)
                })),
                pos <= r@.len(),
                d == depth_of(c@),
                asc ==> forall|j: int|
                    0 <= j < pos ==> depth_of(#[trigger] r.deep_view()[j]) <= depth_of(c@),
                !asc ==> forall|j: int|
                    0 <= j < pos ==> depth_of(#[trigger] r.deep_view()[j]) >= depth_of(c@),
            decreases r@.len() - pos,
        {
            proof {
                assert(r@[pos as int]@ == r.deep_view()[pos as int]);
            }
            let rn = r.len();
            proof {
                assert(pos < rn);
            }
            pos += 1;
            scanning = pos < r.len();
            if scanning {
                let dp = depth(&r[pos]);
                scanning = if asc {
                    dp <= d
                } else {
                    dp >= d
                };
            }
        }
        proof {
            assert(pos < r@.len() ==> r@[pos as int]@ == r.deep_view()[pos as int]);
        }
        let ghost pre = r.deep_view();
        r.insert(pos, c);
        proof {
            assert(r.deep_view() =~= pre.insert(pos as int, c@));
            lemma_insert_by_depth_positional(pre, c@, pos as int, asc);
            assert(iv.take(i as int + 1).drop_last() =~= iv.take(i as int));
            assert(iv.take(i as int + 1).last() == iv[i as int]);
        }
        i += 1;
    }
    proof {
        assert(iv.take(n as int) =~= iv);
    }
    r
}

/// Partition the list into its phases and sort the key phases by depth.
pub fn order_changes(changes: &Vec<RegistryChange>) -> (r: Vec<RegistryChange>)
    ensures
        r.deep_view() == order_spec(changes.deep_view()),
{
    let ghost cv = changes.deep_view();
    let mut adds: Vec<RegistryChange> = Vec::new();
    let mut mods: Vec<RegistryChange> = Vec::new();
    let mut vadds: Vec<RegistryChange> = Vec::new();
    let mut vmods: Vec<RegistryChange> = Vec::new();
    let mut vdels: Vec<RegistryChange> = Vec::new();
    let mut dels: Vec<RegistryChange> = Vec::new();
    let mut i: usize = 0;
    proof {
        assert(cv.skip(0) =~= cv);
    }
    while i < changes.len()
        invariant
            i <= changes@.len(),
            cv == changes.deep_view(),
            cv.len() == changes@.len(),
            filter_kind(cv, |c: ChangeView| is_key_added(c)) =~= adds.deep_view() + filter_kind(
                cv.skip(i as int),
                |c: ChangeView| is_key_added(c),
            ),
            filter_kind(cv, |c: ChangeView| is_key_modified(c)) =~= mods.deep_view()
                + filter_kind(cv.skip(i as int), |c: ChangeView| is_key_modified(c)),
            filter_kind(cv, |c: ChangeView| is_value_added(c)) =~= vadds.deep_view()
                + filter_kind(cv.skip(i as int), |c: ChangeView| is_value_added(c)),
            filter_kind(cv, |c: ChangeView| is_value_modified(c)) =~= vmods.deep_view()
                + filter_kind(cv.skip(i as int), |c: ChangeView| is_value_modified(c)),
            filter_kind(cv, |c: ChangeView| is_value_deleted(c)) =~= vdels.deep_view()
                + filter_kind(cv.skip(i as int), |c: ChangeView| is_value_deleted(c)),
            filter_kind(cv, |c: ChangeView| is_key_deleted(c)) =~= dels.deep_view() + filter_kind(
                cv.skip(i as int),
                |c: ChangeView| is_key_deleted(c),
            ),
        decreases changes@.len() - i,
    {
        proof {
            assert(cv.skip(i as int)[0] == cv[i as int]);
            assert(cv.skip(i as int).skip(1) =~= cv.skip(i as int + 1));
            assert(changes@[i as int]@ == cv[i as int]);
        }
        let c = changes[i].duplicate();
        match &c {
            RegistryChange::KeyAdded(_) => adds.push(c),
            RegistryChange::KeyModified(_, _) => mods.push(c),
            RegistryChange::ValueAdded(_, _, _) => vadds.push(c),
            RegistryChange::ValueModified(_, _, _, _) => vmods.push(c),
            RegistryChange::ValueDeleted(_, _, _) => vdels.push(c),
            RegistryChange::KeyDeleted(_) => dels.push(c),
        }
        i += 1;
    }
    proof {
        assert(cv.skip(cv.len() as int) =~= Seq::<ChangeView>::empty());
    }
    let adds_sorted = sort_changes_by_depth(adds, true);
    let dels_sorted = sort_changes_by_depth(dels, false);
    let mut r = adds_sorted;
    let mut k: usize = 0;
    while k < mods.len()
        invariant
            k <= mods@.len(),
            r.deep_view() =~= sort_by_depth_asc(filter_kind(cv, |c: ChangeView| is_key_added(c)))
                + mods.deep_view().take(k as int),
        decreases mods@.len() - k,
    {
        proof {
            assert(mods@[k as int]@ == mods.deep_view()[k as int]);
            assert(mods.deep_view().take(k as int + 1) =~= mods.deep_view().take(k as int).push(
                mods.deep_view()[k as int],
            ));
        }
        let ghost pre = r.deep_view();
        let c = mods[k].duplicate();
        r.push(c);
        proof {
            assert(r.deep_view() =~= pre.push(mods.deep_view()[k as int]));
        }
        k += 1;
    }
    let mut k2: usize = 0;
    while k2 < vadds.len()
        invariant
            k2 <= vadds@.len(),
            r.deep_view() =~= sort_by_depth_asc(filter_kind(cv, |c: ChangeView| is_key_added(c)))
                + filter_kind(cv, |c: ChangeView| is_key_modified(c)) + vadds.deep_view().take(
                k2 as int,
            ),
        decreases vadds@.len() - k2,
    {
        proof {
            assert(vadds@[k2 as int]@ == vadds.deep_view()[k2 as int]);
            assert(vadds.deep_view().take(k2 as int + 1) =~= vadds.deep_view().take(
                k2 as int,
            ).push(vadds.deep_view()[k2 as int]));
        }
        let ghost pre = r.deep_view();
        let c = vadds[k2].duplicate();
        r.push(c);
        proof {
            assert(r.deep_view() =~= pre.push(vadds.deep_view()[k2 as int]));
        }
        k2 += 1;
    }
    let mut k3: usize = 0;
    while k3 < vmods.len()
        invariant
            k3 <= vmods@.len(),
            r.deep_view() =~= sort_by_depth_asc(filter_kind(cv, |c: ChangeView| is_key_added(c)))
                + filter_kind(cv, |c: ChangeView| is_key_modified(c)) + filter_kind(
                cv,
                |c: ChangeView| is_value_added(c),
            ) + vmods.deep_view().take(k3 as int),
        decreases vmods@.len() - k3,
    {
        proof {
            assert(vmods@[k3 as int]@ == vmods.deep_view()[k3 as int]);
            assert(vmods.deep_view().take(k3 as int + 1) =~= vmods.deep_view().take(
                k3 as int,
            ).push(vmods.deep_view()[k3 as int]));
        }
        let ghost pre = r.deep_view();
        let c = vmods[k3].duplicate();
        r.push(c);
        proof {
            assert(r.deep_view() =~= pre.push(vmods.deep_view()[k3 as int]));
        }
        k3 += 1;
    }
    let mut k4: usize = 0;
    while k4 < vdels.len()
        invariant
            k4 <= vdels@.len(),
            r.deep_view() =~= sort_by_depth_asc(filter_kind(cv, |c: ChangeView| is_key_added(c)))
                + filter_kind(cv, |c: ChangeView| is_key_modified(c)) + filter_kind(
                cv,
                |c: ChangeView| is_value_added(c),
            ) + filter_kind(cv, |c: ChangeView| is_value_modified(c)) + vdels.deep_view().take(
                k4 as int,
            ),
        decreases vdels@.len() - k4,
    {
        proof {
            assert(vdels@[k4 as int]@ == vdels.deep_view()[k4 as int]);
            assert(vdels.deep_view().take(k4 as int + 1) =~= vdels.deep_view().take(
                k4 as int,
            ).push(vdels.deep_view()[k4 as int]));
        }
        let ghost pre = r.deep_view();
        let c = vdels[k4].duplicate();
        r.push(c);
        proof {
            assert(r.deep_view() =~= pre.push(vdels.deep_view()[k4 as int]));
        }
        k4 += 1;
    }
    let mut k5: usize = 0;
    let nd = dels_sorted.len();
    let ghost dsv = dels_sorted.deep_view();
    while k5 < nd
        invariant
            k5 <= nd,
            nd == dsv.len(),
            dels_sorted.deep_view() == dsv,
            dels_sorted@.len() == nd,
            r.deep_view() =~= sort_by_depth_asc(filter_kind(cv, |c: ChangeView| is_key_added(c)))
                + filter_kind(cv, |c: ChangeView| is_key_modified(c)) + filter_kind(
                cv,
                |c: ChangeView| is_value_added(c),
            ) + filter_kind(cv, |c: ChangeView| is_value_modified(c)) + filter_kind(
                cv,
                |c: ChangeView| is_value_deleted(c),
            ) + dsv.take(k5 as int),
        decreases nd - k5,
    {
        proof {
            assert(dels_sorted@[k5 as int]@ == dsv[k5 as int]);
            assert(dsv.take(k5 as int + 1) =~= dsv.take(k5 as int).push(dsv[k5 as int]));
        }
        let ghost pre = r.deep_view();
        let c = dels_sorted[k5].duplicate();
        r.push(c);
        proof {
            assert(r.deep_view() =~= pre.push(dsv[k5 as int]));
        }
        k5 += 1;
    }
    proof {
        assert(vdels.deep_view().take(vdels.deep_view().len() as int) =~= vdels.deep_view());
        assert(mods.deep_view().take(mods.deep_view().len() as int) =~= mods.deep_view());
        assert(vadds.deep_view().take(vadds.deep_view().len() as int) =~= vadds.deep_view());
        assert(vmods.deep_view().take(vmods.deep_view().len() as int) =~= vmods.deep_view());
        assert(dsv.take(dsv.len() as int) =~= dsv);
        assert(r.deep_view() =~= order_spec(cv));
    }
    r
}


// ---------------------------------------------------------------------------
// Applying one change, stated over views.
// ---------------------------------------------------------------------------
pub open spec fn is_empty_key(k: KeyView) -> bool {
    k.subkeys.len() == 0 && k.values.len() == 0
}

/// Walking up from the key at `segs`, delete every key that has become
/// empty, stopping at the first non-empty ancestor or refused deletion.
pub open spec fn delete_empty_chain_spec(t: KeyView, segs: Seq<Seq<char>>) -> KeyView
    decreases segs.len(),
{
    if segs.len() == 0 {
        t
    } else if t.path_exists(segs) && is_empty_key(t.find_path(segs).unwrap()) {
        let t1 = t.delete_subkey_at_spec(segs.drop_last(), segs.last(), false);
        if t.subkey_removable_at(segs.drop_last(), segs.last(), false) {
            delete_empty_chain_spec(t1, segs.drop_last())
        } else {
            t1
        }
    } else {
        t
    }
}

pub open spec fn prop_meta(p: PropView) -> MetaUpdateView {
    match p {
        PropView::ClassNameChange(_, new) => MetaUpdateView::ClassName(new),
        PropView::SymlinkChange(_, new) => MetaUpdateView::Symlink(new),
        PropView::VolatileChange(_, new) => MetaUpdateView::Volatile(new),
    }
}

/// Overwrite each listed property of the key at `segs`, in order.
pub open spec fn apply_props_spec(t: KeyView, segs: Seq<Seq<char>>, props: Seq<PropView>) -> KeyView
    decreases props.len(),
{
    if props.len() == 0 {
        t
    } else {
        apply_props_spec(t.meta_at_spec(segs, prop_meta(props[0])), segs, props.skip(1))
    }
}

/// What one change does to the tree, and whether it applies: `Ok(true)` when
/// applied, `Ok(false)` when refused, `Err` with a reason when its key is
/// missing.
pub open spec fn apply_change_spec(t: KeyView, c: ChangeView, o: PatchOptions) -> (KeyView, Result<
    bool,
    Seq<char>,
>) {
    match c {
        ChangeView::KeyAdded(p) => {
            let segs = split_path(p);
            if o.create_missing_keys || segs.len() <= 1 || t.path_exists(segs.drop_last()) {
                (t.create_path(segs, true), Result::<bool, Seq<char>>::Ok(true))
            } else {
                (t, Result::<bool, Seq<char>>::Ok(false))
            }
        },
        ChangeView::KeyDeleted(p) => {
            let segs = split_path(p);
            if segs.len() == 0 {
                (t, Result::<bool, Seq<char>>::Ok(false))
            } else if t.path_exists(segs.drop_last()) {
                (
                    t.delete_subkey_at_spec(segs.drop_last(), segs.last(), true),
                    Result::<bool, Seq<char>>::Ok(
                        t.subkey_removable_at(segs.drop_last(), segs.last(), true),
                    ),
                )
            } else {
                (t, Result::<bool, Seq<char>>::Ok(false))
            }
        },
        ChangeView::KeyModified(p, props) => {
            let segs = split_path(p);
            if !t.path_exists(segs) {
                (t, Result::<bool, Seq<char>>::Err("missing key"@))
            } else {
                (apply_props_spec(t, segs, props), Result::<bool, Seq<char>>::Ok(true))
            }
        },
        ChangeView::ValueAdded(p, n, v) => {
            let segs = split_path(p);
            if !o.create_missing_keys && !t.path_exists(segs) {
                (t, Result::<bool, Seq<char>>::Err("missing key"@))
            } else {
                let t1 = if o.create_missing_keys {
                    t.create_path(segs, true)
                } else {
                    t
                };
                if !o.overwrite_existing_values && t1.value_exists_at(segs, n) {
                    (t1, Result::<bool, Seq<char>>::Ok(false))
                } else {
                    (t1.set_value_at_spec(segs, n, v, true), Result::<bool, Seq<char>>::Ok(true))
                }
            }
        },
        ChangeView::ValueDeleted(p, n, _v) => {
            let segs = split_path(p);
            if !t.path_exists(segs) {
                (t, Result::<bool, Seq<char>>::Err("missing key"@))
            } else {
                let removed = t.value_exists_at(segs, n);
                let t1 = t.delete_value_at_spec(segs, n);
                let t2 = if removed && o.delete_empty_keys {
                    delete_empty_chain_spec(t1, segs)
                } else {
                    t1
                };
                (t2, Result::<bool, Seq<char>>::Ok(removed))
            }
        },
        ChangeView::ValueModified(p, n, a, b) => {
            let segs = split_path(p);
            if !t.path_exists(segs) {
                (t, Result::<bool, Seq<char>>::Err("missing key"@))
            } else if o.validate_before_apply && !(t.value_exists_at(segs, n)
                && spec_values_equal(t.find_path(segs).unwrap().value_of(n).data, a.data)) {
                (t, Result::<bool, Seq<char>>::Ok(false))
            } else {
                (t.set_value_at_spec(segs, n, b, true), Result::<bool, Seq<char>>::Ok(true))
            }
        },
    }
}

/// A value sits at the end of a path exactly when the path resolves and the
/// resolved key holds it.
pub proof fn lemma_value_exists_at_find(t: KeyView, segs: Seq<Seq<char>>, n: Seq<char>)
    ensures
        t.value_exists_at(segs, n) == (t.path_exists(segs) && t.find_path(segs).unwrap().has_value(
            n,
        )),
    decreases segs.len(),
{
    if segs.len() > 0 {
        if t.has_subkey(segs[0]) {
            lemma_value_exists_at_find(t.subkey_of(segs[0]), segs.skip(1), n);
        }
    }
}

// ---------------------------------------------------------------------------
// Executable application.
// ---------------------------------------------------------------------------
fn delete_empty_chain(root: &mut RegistryKey, path: Vec<Vec<char>>)
    requires
        old(root)@.wf(),
    ensures
        final (root)@ == delete_empty_chain_spec(old(root)@, segs_view(path@)),
        final (root)@.wf(),
{
    let mut cur = path;
    let mut done = false;
    while !done
        invariant
            root@.wf(),
            delete_empty_chain_spec(old(root)@, segs_view(path@)) == (if done {
                root@
            } else {
                delete_empty_chain_spec(root@, segs_view(cur@))
            }),
        decreases (if done {
            0int
        } else {
            cur@.len() as int + 1
        }),
    {
        if cur.len() == 0 {
            done = true;
        } else {
            let ghost ss = segs_view(cur@);
            proof {
                assert(ss.skip(0) =~= ss);
            }
            let probe: Option<bool> = match root.find_key_segs(&cur, 0) {
                Some(node) => {
                    let e = node.values.len() == 0 && node.subkeys.len() == 0;
                    proof {
                        crate::registry_key::lemma_views_of(node.subkeys@);
                        assert(e == is_empty_key(node@));
                    }
                    Some(e)
                },
                None => None,
            };
            match probe {
                None => {
                    done = true;
                },
                Some(false) => {
                    done = true;
                },
                Some(true) => {
                    let namev = match cur.pop() {
                        Some(v) => v,
                        None => {
                            proof {
                                assert(false);
                            }
                            Vec::new()
                        },
                    };
                    proof {
                        assert(segs_view(cur@) =~= ss.drop_last());
                        assert(namev@ == ss.last());
                        assert(segs_view(cur@).skip(0) =~= segs_view(cur@));
                    }
                    let name = crate::text::chars_to_string(&namev);
                    let removed = root.delete_subkey_at(&cur, 0, name.as_str(), false);
                    if !removed {
                        done = true;
                    }
                },
            }
        }
    }
}

fn apply_props(target: &mut RegistryKey, segs: &Vec<Vec<char>>, props: &Vec<KeyPropertyChange>)
    requires
        old(target)@.wf(),
    ensures
        final (target)@ == apply_props_spec(
            old(target)@,
            segs_view(segs@),
            props.deep_view(),
        ),
        final (target)@.wf(),
{
    let ghost pv = props.deep_view();
    let mut i: usize = 0;
    proof {
        assert(pv.skip(0) =~= pv);
    }
    while i < props.len()
        invariant
            target@.wf(),
            i <= props@.len(),
            pv == props.deep_view(),
            pv.len() == props@.len(),
            apply_props_spec(old(target)@, segs_view(segs@), pv) == apply_props_spec(
                target@,
                segs_view(segs@),
                pv.skip(i as int),
            ),
        decreases props@.len() - i,
    {
        proof {
            assert(pv.skip(i as int)[0] == pv[i as int]);
            assert(pv.skip(i as int).skip(1) =~= pv.skip(i as int + 1));
            assert(props@[i as int]@ == pv[i as int]);
        }
        let upd = match &props[i] {
            KeyPropertyChange::ClassNameChange(_, new) => MetaUpdate::ClassName(
                match new {
                    Some(x) => Some(x.clone()),
                    None => None,
                },
            ),
            KeyPropertyChange::SymlinkChange(_, new) => MetaUpdate::Symlink(*new),
            KeyPropertyChange::VolatileChange(_, new) => MetaUpdate::Volatile(*new),
        };
        proof {
            assert(upd@ == prop_meta(pv[i as int]));
        }
        target.update_meta_at(segs, 0, upd);
        proof {
            assert(segs_view(segs@).skip(0) =~= segs_view(segs@));
        }
        i += 1;
    }
    proof {
        assert(pv.skip(pv.len() as int) =~= Seq::<PropView>::empty());
    }
}

/// Apply one change to the tree; `Ok(true)` when applied, `Ok(false)` when
/// refused, `Err` when its key is missing.
fn apply_change(target: &mut RegistryKey, change: &RegistryChange, options: &PatchOptions) -> (r:
    Result<bool, String>)
    requires
        old(target)@.wf(),
    ensures
        final (target)@ == apply_change_spec(old(target)@, change@, *options).0,
        (match r {
            Ok(b) => apply_change_spec(old(target)@, change@, *options).1 == Result::<
                bool,
                Seq<char>,
            >::Ok(b),
            Err(m) => apply_change_spec(old(target)@, change@, *options).1 == Result::<
                bool,
                Seq<char>,
            >::Err(m@),
        }),
        final (target)@.wf(),
{
    match change {
        RegistryChange::KeyAdded(p) => {
            let pc = str_chars(p.as_str());
            let segs = split_path_chars(&pc);
            let ghost ss = split_path(p@);
            proof {
                assert(segs_view(segs@) == ss);
            }
            let mut ok = options.create_missing_keys || segs.len() <= 1;
            if !ok {
                let mut parent: Vec<Vec<char>> = Vec::new();
                let mut i: usize = 0;
                let n = segs.len();
                while i + 1 < n
                    invariant
                        n == segs@.len(),
                        segs@.len() >= 2,
                        i <= segs@.len() - 1,
                        parent@.len() == i,
                        forall|j: int| 0 <= j < i ==> (#[trigger] parent@[j])@ == segs@[j]@,
                    decreases segs@.len() - i,
                {
                    let c = crate::text::str_chars(
                        crate::text::chars_to_string(&segs[i]).as_str(),
                    );
                    parent.push(c);
                    i += 1;
                }
                proof {
                    assert(segs_view(parent@) =~= ss.drop_last());
                    assert(segs_view(parent@).skip(0) =~= segs_view(parent@));
                }
                ok = target.find_key_segs(&parent, 0).is_some();
            }
            if ok {
                target.create_segments(&segs, 0, true);
                proof {
                    assert(ss.skip(0) =~= ss);
                }
                Ok(true)
            } else {
                Ok(false)
            }
        },
        RegistryChange::KeyDeleted(p) => {
            let pc = str_chars(p.as_str());
            let mut segs = split_path_chars(&pc);
            let ghost ss = split_path(p@);
            proof {
                assert(segs_view(segs@) == ss);
            }
            if segs.len() == 0 {
                return Ok(false);
            }
            let namev = segs.pop().unwrap();
            proof {
                assert(segs_view(segs@) =~= ss.drop_last());
                assert(namev@ == ss.last());
                assert(segs_view(segs@).skip(0) =~= segs_view(segs@));
            }
            if target.find_key_segs(&segs, 0).is_some() {
                let name = crate::text::chars_to_string(&namev);
                let removed = target.delete_subkey_at(&segs, 0, name.as_str(), true);
                Ok(removed)
            } else {
                Ok(false)
            }
        },
        RegistryChange::KeyModified(p, props) => {
            let pc = str_chars(p.as_str());
            let segs = split_path_chars(&pc);
            let ghost ss = split_path(p@);
            proof {
                assert(segs_view(segs@) == ss);
                assert(ss.skip(0) =~= ss);
            }
            if target.find_key_segs(&segs, 0).is_none() {
                return Err(String::from_str("missing key"));
            }
            apply_props(target, &segs, props);
            proof {
                assert(Seq::new(props@.len(), |i: int| props@[i]@) =~= props.deep_view());
            }
            Ok(true)
        },
        RegistryChange::ValueAdded(p, n, v) => {
            let pc = str_chars(p.as_str());
            let segs = split_path_chars(&pc);
            let ghost ss = split_path(p@);
            proof {
                assert(segs_view(segs@) == ss);
                assert(ss.skip(0) =~= ss);
            }
            if !options.create_missing_keys {
                if target.find_key_segs(&segs, 0).is_none() {
                    return Err(String::from_str("missing key"));
                }
            } else {
                target.create_segments(&segs, 0, true);
            }
            if !options.overwrite_existing_values {
                let exists = match target.find_key_segs(&segs, 0) {
                    Some(node) => node.get_value(n.as_str()).is_some(),
                    None => false,
                };
                proof {
                    lemma_value_exists_at_find(target@, ss, n@);
                }
                if exists {
                    return Ok(false);
                }
            }
            target.set_value_at(&segs, 0, n.as_str(), v.duplicate(), true);
            Ok(true)
        },
        RegistryChange::ValueDeleted(p, n, _v) => {
            let pc = str_chars(p.as_str());
            let segs = split_path_chars(&pc);
            let ghost ss = split_path(p@);
            proof {
                assert(segs_view(segs@) == ss);
                assert(ss.skip(0) =~= ss);
            }
            if target.find_key_segs(&segs, 0).is_none() {
                return Err(String::from_str("missing key"));
            }
            let removed = target.delete_value_at(&segs, 0, n.as_str());
            if removed && options.delete_empty_keys {
                delete_empty_chain(target, segs);
            }
            Ok(removed)
        },
        RegistryChange::ValueModified(p, n, a, b) => {
            let pc = str_chars(p.as_str());
            let segs = split_path_chars(&pc);
            let ghost ss = split_path(p@);
            proof {
                assert(segs_view(segs@) == ss);
                assert(ss.skip(0) =~= ss);
            }
            let node = match target.find_key_segs(&segs, 0) {
                Some(nd) => nd,
                None => {
                    return Err(String::from_str("missing key"));
                },
            };
            if options.validate_before_apply {
                let okv = match node.get_value(n.as_str()) {
                    Some(existing) => crate::registry_comparator::values_equal(existing, a),
                    None => false,
                };
                proof {
                    lemma_value_exists_at_find(target@, ss, n@);
                }
                if !okv {
                    return Ok(false);
                }
            }
            target.set_value_at(&segs, 0, n.as_str(), b.duplicate(), true);
            Ok(true)
        },
    }
}

// ---------------------------------------------------------------------------
// The patch run.
// ---------------------------------------------------------------------------

/// The outcome of applying an ordered run of changes: the final tree, the
/// changes applied, and the failures recorded, honouring `ignore_failures`.
pub open spec fn apply_list_spec(t: KeyView, cs: Seq<ChangeView>, o: PatchOptions) -> (
    KeyView,
    Seq<ChangeView>,
    Seq<FailureView>,
)
    decreases cs.len(),
{
    if cs.len() == 0 {
        (t, Seq::empty(), Seq::empty())
    } else {
        let (t1, res) = apply_change_spec(t, cs[0], o);
        match res {
            Ok(true) => {
                let (t2, ap, fl) = apply_list_spec(t1, cs.skip(1), o);
                (t2, seq![cs[0]] + ap, fl)
            },
            Ok(false) => {
                let f = FailureView { change: cs[0], reason: "Unable to apply change"@ };
                if o.ignore_failures {
                    let (t2, ap, fl) = apply_list_spec(t1, cs.skip(1), o);
                    (t2, ap, seq![f] + fl)
                } else {
                    (t1, Seq::empty(), seq![f])
                }
            },
            Err(m) => {
                let f = FailureView { change: cs[0], reason: m };
                if o.ignore_failures {
                    let (t2, ap, fl) = apply_list_spec(t1, cs.skip(1), o);
                    (t2, ap, seq![f] + fl)
                } else {
                    (t1, Seq::empty(), seq![f])
                }
            },
        }
    }
}

pub struct RegistryPatcher;

impl RegistryPatcher {
    /// Order the change list into phases and apply it to the tree, recording
    /// applied changes and failures; a failure stops the run unless failures
    /// are ignored.
    #[verifier::rlimit(100)]
    pub fn apply_patch(&self, target: &mut RegistryKey, diff: &DiffResult, options: PatchOptions)
        -> (r: PatchResult)
        requires
            old(target)@.wf(),
        ensures
            ({
                let (ft, ap, fl) = apply_list_spec(
                    old(target)@,
                    order_spec(diff.changes.deep_view()),
                    options,
                );
                final (target)@ == ft && r.applied.deep_view() == ap && r.failed.deep_view() == fl
                    && r.ignore_failures == options.ignore_failures
            }),
            final (target)@.wf(),
    {
        let ordered = order_changes(&diff.changes);
        let ghost os = order_spec(diff.changes.deep_view());
        let mut applied: Vec<RegistryChange> = Vec::new();
        let mut failed: Vec<PatchFailure> = Vec::new();
        let mut i: usize = 0;
        let mut stopped = false;
        let n = ordered.len();
        proof {
            assert(os.skip(0) =~= os);
        }
        while i < n && !stopped
            invariant
                target@.wf(),
                i <= n,
                n == os.len(),
                ordered.deep_view() == os,
                ordered@.len() == n,
                !stopped ==> apply_list_spec(old(target)@, os, options) == ({
                    let (t2, ap, fl) = apply_list_spec(target@, os.skip(i as int), options);
                    (t2, applied.deep_view() + ap, failed.deep_view() + fl)
                }),
                stopped ==> apply_list_spec(old(target)@, os, options) == (
                    target@,
                    applied.deep_view(),
                    failed.deep_view(),
                ),
            decreases n - i,
        {
            proof {
                assert(os.skip(i as int)[0] == os[i as int]);
                assert(os.skip(i as int).skip(1) =~= os.skip(i as int + 1));
                assert(ordered@[i as int]@ == os[i as int]);
            }
            let c = &ordered[i];
            let res = apply_change(target, c, &options);
            match res {
                Ok(true) => {
                    let ghost pre = applied.deep_view();
                    applied.push(c.duplicate());
                    proof {
                        assert(applied.deep_view() =~= pre.push(os[i as int]));
                        assert(applied.deep_view() + Seq::<ChangeView>::empty() =~= applied.deep_view());
                    }
                },
                Ok(false) => {
                    let ghost pre = failed.deep_view();
                    failed.push(
                        PatchFailure {
                            change: c.duplicate(),
                            reason: String::from_str("Unable to apply change"),
                        },
                    );
                    proof {
                        assert(failed.deep_view() =~= pre.push(
                            FailureView { change: os[i as int], reason: "Unable to apply change"@ },
                        ));
                    }
                    if !options.ignore_failures {
                        stopped = true;
                    }
                },
                Err(msg) => {
                    let ghost mv = msg@;
                    let ghost pre = failed.deep_view();
                    failed.push(PatchFailure { change: c.duplicate(), reason: msg });
                    proof {
                        assert(failed.deep_view() =~= pre.push(
                            FailureView { change: os[i as int], reason: mv },
                        ));
                    }
                    if !options.ignore_failures {
                        stopped = true;
                    }
                },
            }
            i += 1;
        }
        proof {
            if !stopped {
                assert(i == n);
                assert(os.skip(n as int) =~= Seq::<ChangeView>::empty());
                let (t2, ap, fl) = apply_list_spec(target@, os.skip(n as int), options);
                assert(applied.deep_view() + ap =~= applied.deep_view());
                assert(failed.deep_view() + fl =~= failed.deep_view());
            }
        }
        PatchResult { applied, failed, ignore_failures: options.ignore_failures }
    }
}

} // verus!
