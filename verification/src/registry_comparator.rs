use vstd::prelude::*;
use crate::registry_key::{RegistryKey, KeyView, EntryView, lemma_views_of, lemma_value_index_unique};
use crate::registry_value::{RegistryValue, ValueView, spec_values_equal, spec_reg_type, spec_raw_bytes};
use crate::text::{fold_seq, lex_lt, lex_cmp, str_chars, fold_chars, chars_to_string};

verus! {

broadcast use vstd::std_specs::vec::group_vec_axioms;

// ---------------------------------------------------------------------------
// The change taxonomy.  Key paths inside changes are joined with single
// backslashes from the folded segment names; value names keep their stored
// case.
// ---------------------------------------------------------------------------
pub enum KeyPropertyChange {
    ClassNameChange(Option<String>, Option<String>),
    SymlinkChange(bool, bool),
    VolatileChange(bool, bool),
}

pub enum RegistryChange {
    KeyAdded(String),
    KeyDeleted(String),
    KeyModified(String, Vec<KeyPropertyChange>),
    ValueAdded(String, String, RegistryValue),
    ValueDeleted(String, String, RegistryValue),
    ValueModified(String, String, RegistryValue, RegistryValue),
}

pub enum PropView {
    ClassNameChange(Option<Seq<char>>, Option<Seq<char>>),
    SymlinkChange(bool, bool),
    VolatileChange(bool, bool),
}

pub enum ChangeView {
    KeyAdded(Seq<char>),
    KeyDeleted(Seq<char>),
    KeyModified(Seq<char>, Seq<PropView>),
    ValueAdded(Seq<char>, Seq<char>, ValueView),
    ValueDeleted(Seq<char>, Seq<char>, ValueView),
    ValueModified(Seq<char>, Seq<char>, ValueView, ValueView),
}

pub open spec fn opt_view(s: Option<String>) -> Option<Seq<char>> {
    match s {
        Some(x) => Some(x@),
        None => None,
    }
}

impl View for KeyPropertyChange {
    type V = PropView;

    open spec fn view(&self) -> PropView {
        match self {
            KeyPropertyChange::ClassNameChange(a, b) => PropView::ClassNameChange(
                opt_view(*a),
                opt_view(*b),
            ),
            KeyPropertyChange::SymlinkChange(a, b) => PropView::SymlinkChange(*a, *b),
            KeyPropertyChange::VolatileChange(a, b) => PropView::VolatileChange(*a, *b),
        }
    }
}

impl DeepView for KeyPropertyChange {
    type V = PropView;

    open spec fn deep_view(&self) -> PropView {
        self.view()
    }
}

impl View for RegistryChange {
    type V = ChangeView;

    open spec fn view(&self) -> ChangeView {
        match self {
            RegistryChange::KeyAdded(p) => ChangeView::KeyAdded(p@),
            RegistryChange::KeyDeleted(p) => ChangeView::KeyDeleted(p@),
            RegistryChange::KeyModified(p, props) => ChangeView::KeyModified(
                p@,
                Seq::new(props@.len(), |i: int| props@[i]@),
            ),
            RegistryChange::ValueAdded(p, n, v) => ChangeView::ValueAdded(p@, n@, v@),
            RegistryChange::ValueDeleted(p, n, v) => ChangeView::ValueDeleted(p@, n@, v@),
            RegistryChange::ValueModified(p, n, a, b) => ChangeView::ValueModified(
                p@,
                n@,
                a@,
                b@,
            ),
        }
    }
}

impl DeepView for RegistryChange {
    type V = ChangeView;

    open spec fn deep_view(&self) -> ChangeView {
        self.view()
    }
}

impl RegistryChange {
    /// A deep copy whose view is the original's.
    pub fn duplicate(&self) -> (r: Self)
        ensures
            r@ == self@,
    {
        match self {
            RegistryChange::KeyAdded(p) => RegistryChange::KeyAdded(p.clone()),
            RegistryChange::KeyDeleted(p) => RegistryChange::KeyDeleted(p.clone()),
            RegistryChange::KeyModified(p, props) => {
                let mut ps: Vec<KeyPropertyChange> = Vec::new();
                let mut i: usize = 0;
                while i < props.len()
                    invariant
                        i <= props@.len(),
                        ps@.len() == i,
                        forall|j: int| 0 <= j < i ==> (#[trigger] ps@[j])@ == props@[j]@,
                    decreases props@.len() - i,
                {
                    let q = match &props[i] {
                        KeyPropertyChange::ClassNameChange(a, b) => {
                            let a2 = match a {
                                Some(x) => Some(x.clone()),
                                None => None,
                            };
                            let b2 = match b {
                                Some(x) => Some(x.clone()),
                                None => None,
                            };
                            KeyPropertyChange::ClassNameChange(a2, b2)
                        },
                        KeyPropertyChange::SymlinkChange(a, b) => KeyPropertyChange::SymlinkChange(
                            *a,
                            *b,
                        ),
                        KeyPropertyChange::VolatileChange(a, b) =>
                            KeyPropertyChange::VolatileChange(*a, *b),
                    };
                    ps.push(q);
                    i += 1;
                }
                proof {
                    assert(Seq::new(ps@.len(), |i: int| ps@[i]@) =~= Seq::new(
                        props@.len(),
                        |i: int| props@[i]@,
                    ));
                }
                RegistryChange::KeyModified(p.clone(), ps)
            },
            RegistryChange::ValueAdded(p, n, v) => RegistryChange::ValueAdded(
                p.clone(),
                n.clone(),
                v.duplicate(),
            ),
            RegistryChange::ValueDeleted(p, n, v) => RegistryChange::ValueDeleted(
                p.clone(),
                n.clone(),
                v.duplicate(),
            ),
            RegistryChange::ValueModified(p, n, a, b) => RegistryChange::ValueModified(
                p.clone(),
                n.clone(),
                a.duplicate(),
                b.duplicate(),
            ),
        }
    }
}

// ---------------------------------------------------------------------------
// The comparison, stated over views.
// ---------------------------------------------------------------------------

/// One path segment appended: segments are joined with single backslashes,
/// and the root path is empty.
pub open spec fn join_seg(path: Seq<char>, name: Seq<char>) -> Seq<char> {
    if path.len() == 0 {
        name
    } else {
        path + seq!['\\'] + name
    }
}

/// The property changes between two keys, in the fixed order class name,
/// symlink, volatile.
pub open spec fn props_diff(l: KeyView, r: KeyView) -> Seq<PropView> {
    (if l.class_name != r.class_name {
        seq![PropView::ClassNameChange(l.class_name, r.class_name)]
    } else {
        Seq::empty()
    }) + (if l.is_symlink != r.is_symlink {
        seq![PropView::SymlinkChange(l.is_symlink, r.is_symlink)]
    } else {
        Seq::empty()
    }) + (if l.is_volatile != r.is_volatile {
        seq![PropView::VolatileChange(l.is_volatile, r.is_volatile)]
    } else {
        Seq::empty()
    })
}

pub open spec fn has_entry_key(s: Seq<EntryView>, key: Seq<char>) -> bool {
    exists|i: int| 0 <= i < s.len() && (#[trigger] s[i]).key == key
}

pub open spec fn entry_index(s: Seq<EntryView>, key: Seq<char>) -> int {
    choose|i: int| 0 <= i < s.len() && (#[trigger] s[i]).key == key
}

/// Additions: the values of `r` whose key is absent from `l`, in storage
/// order.
pub open spec fn values_added(lvals: Seq<EntryView>, rvals: Seq<EntryView>, path: Seq<char>)
    -> Seq<ChangeView>
    decreases rvals.len(),
{
    if rvals.len() == 0 {
        Seq::empty()
    } else {
        (if !has_entry_key(lvals, rvals[0].key) {
            seq![ChangeView::ValueAdded(path, rvals[0].value.name, rvals[0].value)]
        } else {
            Seq::empty()
        }) + values_added(lvals, rvals.skip(1), path)
    }
}

/// Deletions: the values of `l` whose key is absent from `r`.
pub open spec fn values_deleted(lvals: Seq<EntryView>, rvals: Seq<EntryView>, path: Seq<char>)
    -> Seq<ChangeView>
    decreases lvals.len(),
{
    if lvals.len() == 0 {
        Seq::empty()
    } else {
        (if !has_entry_key(rvals, lvals[0].key) {
            seq![ChangeView::ValueDeleted(path, lvals[0].value.name, lvals[0].value)]
        } else {
            Seq::empty()
        }) + values_deleted(lvals.skip(1), rvals, path)
    }
}

/// Modifications: values present on both sides under the same key whose type
/// codes or canonical bytes differ.
pub open spec fn values_modified(lvals: Seq<EntryView>, rvals: Seq<EntryView>, path: Seq<char>)
    -> Seq<ChangeView>
    decreases lvals.len(),
{
    if lvals.len() == 0 {
        Seq::empty()
    } else {
        (if has_entry_key(rvals, lvals[0].key) && !spec_values_equal(
            lvals[0].value.data,
            rvals[entry_index(rvals, lvals[0].key)].value.data,
        ) {
            seq![
                ChangeView::ValueModified(
                    path,
                    lvals[0].value.name,
                    lvals[0].value,
                    rvals[entry_index(rvals, lvals[0].key)].value,
                ),
            ]
        } else {
            Seq::empty()
        }) + values_modified(lvals.skip(1), rvals, path)
    }
}

/// Every value and subkey of an added subtree, as additions.
pub open spec fn add_subtree(k: KeyView, path: Seq<char>) -> Seq<ChangeView>
    decreases k, 1int,
{
    values_added(Seq::empty(), k.values, path) + add_children(k.subkeys, path)
}

pub open spec fn add_children(s: Seq<KeyView>, path: Seq<char>) -> Seq<ChangeView>
    decreases s, 2int,
{
    if s.len() == 0 {
        Seq::empty()
    } else {
        seq![ChangeView::KeyAdded(join_seg(path, fold_seq(s[0].name)))] + add_subtree(
            s[0],
            join_seg(path, fold_seq(s[0].name)),
        ) + add_children(s.skip(1), path)
    }
}

/// Every value and subkey of a removed subtree, as deletions.
pub open spec fn del_subtree(k: KeyView, path: Seq<char>) -> Seq<ChangeView>
    decreases k, 1int,
{
    values_deleted(k.values, Seq::empty(), path) + del_children(k.subkeys, path)
}

pub open spec fn del_children(s: Seq<KeyView>, path: Seq<char>) -> Seq<ChangeView>
    decreases s, 2int,
{
    if s.len() == 0 {
        Seq::empty()
    } else {
        seq![ChangeView::KeyDeleted(join_seg(path, fold_seq(s[0].name)))] + del_subtree(
            s[0],
            join_seg(path, fold_seq(s[0].name)),
        ) + del_children(s.skip(1), path)
    }
}

/// Compare two keys that exist on both sides: property changes, value
/// changes, then the children merged in folded-name order.
pub open spec fn compare_pair(l: KeyView, r: KeyView, path: Seq<char>) -> Seq<ChangeView>
    decreases l, r, 1int,
{
    (if props_diff(l, r).len() > 0 {
        seq![ChangeView::KeyModified(path, props_diff(l, r))]
    } else {
        Seq::empty()
    }) + values_added(l.values, r.values, path) + values_deleted(l.values, r.values, path)
        + values_modified(l.values, r.values, path) + compare_children(l.subkeys, r.subkeys, path)
}

pub open spec fn compare_children(ls: Seq<KeyView>, rs: Seq<KeyView>, path: Seq<char>)
    -> Seq<ChangeView>
    decreases ls, rs, 2int,
{
    if ls.len() == 0 && rs.len() == 0 {
        Seq::empty()
    } else if rs.len() == 0 || (ls.len() > 0 && lex_lt(
        fold_seq(ls[0].name),
        fold_seq(rs[0].name),
    )) {
        seq![ChangeView::KeyDeleted(join_seg(path, fold_seq(ls[0].name)))] + del_subtree(
            ls[0],
            join_seg(path, fold_seq(ls[0].name)),
        ) + compare_children(ls.skip(1), rs, path)
    } else if ls.len() == 0 || lex_lt(fold_seq(rs[0].name), fold_seq(ls[0].name)) {
        seq![ChangeView::KeyAdded(join_seg(path, fold_seq(rs[0].name)))] + add_subtree(
            rs[0],
            join_seg(path, fold_seq(rs[0].name)),
        ) + compare_children(ls, rs.skip(1), path)
    } else {
        compare_pair(ls[0], rs[0], join_seg(path, fold_seq(ls[0].name))) + compare_children(
            ls.skip(1),
            rs.skip(1),
            path,
        )
    }
}

/// The full comparison of two trees, rooted at the empty path.
pub open spec fn compare_spec(l: KeyView, r: KeyView) -> Seq<ChangeView> {
    compare_pair(l, r, Seq::empty())
}

// ---------------------------------------------------------------------------
// Results.
// ---------------------------------------------------------------------------
pub struct DiffResult {
    pub changes: Vec<RegistryChange>,
}

pub open spec fn added_of(s: Seq<ChangeView>) -> Seq<ChangeView>
    decreases s.len(),
{
    if s.len() == 0 {
        Seq::empty()
    } else {
        (if s[0] is KeyAdded {
            seq![s[0]]
        } else {
            Seq::empty()
        }) + added_of(s.skip(1))
    }
}

impl DiffResult {
    pub fn has_changes(&self) -> (r: bool)
        ensures
            r == (self.changes.deep_view().len() != 0),
    {
        self.changes.len() != 0
    }

    /// The key additions of the list, in order.
    pub fn added_keys(&self) -> (r: Vec<&RegistryChange>)
        ensures
            r.deep_view() == added_of(self.changes.deep_view()),
    {
        let ghost all = self.changes.deep_view();
        let mut r: Vec<&RegistryChange> = Vec::new();
        let mut i: usize = 0;
        proof {
            assert(all.skip(0) =~= all);
        }
        while i < self.changes.len()
            invariant
                i <= self.changes@.len(),
                all == self.changes.deep_view(),
                added_of(all) =~= r.deep_view() + added_of(all.skip(i as int)),
            decreases self.changes@.len() - i,
        {
            proof {
                assert(all.skip(i as int)[0] == all[i as int]);
                assert(all[i as int] == self.changes@[i as int]@);
                assert(all.skip(i as int).skip(1) =~= all.skip(i as int + 1));
            }
            let c = &self.changes[i];
            let keep = match c {
                RegistryChange::KeyAdded(_) => true,
                _ => false,
            };
            if keep {
                let ghost pre = r.deep_view();
                r.push(c);
                proof {
                    assert(r.deep_view() =~= pre.push(all[i as int]));
                    assert(added_of(all) =~= r.deep_view() + added_of(all.skip(i as int + 1)));
                }
            }
            i += 1;
        }
        proof {
            assert(all.skip(all.len() as int) =~= Seq::<ChangeView>::empty());
            assert(added_of(all) =~= r.deep_view());
        }
        r
    }
}

/// Canonical equality of two values: same type code and same raw bytes.
pub fn values_equal(a: &RegistryValue, b: &RegistryValue) -> (r: bool)
    ensures
        r == spec_values_equal(a.data@, b.data@),
{
    if a.reg_type() != b.reg_type() {
        return false;
    }
    let ba = a.raw_bytes();
    let bb = b.raw_bytes();
    if ba.len() != bb.len() {
        proof {
            if ba@ == bb@ {
                assert(ba@.len() == bb@.len());
            }
        }
        return false;
    }
    let mut i: usize = 0;
    while i < ba.len()
        invariant
            ba@.len() == bb@.len(),
            ba@ == spec_raw_bytes(a.data@),
            bb@ == spec_raw_bytes(b.data@),
            spec_reg_type(a.data@) == spec_reg_type(b.data@),
            i <= ba@.len(),
            forall|j: int| 0 <= j < i ==> ba@[j] == bb@[j],
        decreases ba@.len() - i,
    {
        if ba[i] != bb[i] {
            return false;
        }
        i += 1;
    }
    proof {
        assert(ba@ =~= bb@);
    }
    true
}

pub struct RegistryComparator;

impl RegistryComparator {
    /// Every difference between the two trees, as an unordered change list.
    pub fn compare_registries(&self, left: &RegistryKey, right: &RegistryKey) -> (r: DiffResult)
        requires
            left@.wf(),
            right@.wf(),
        ensures
            r.changes.deep_view() == compare_spec(left@, right@),
    {
        let mut changes: Vec<RegistryChange> = Vec::new();
        let path: Vec<char> = Vec::new();
        proof {
            assert(path@ =~= Seq::<char>::empty());
        }
        compare_pair_exec(left, right, &path, &mut changes);
        proof {
            assert(changes.deep_view() =~= compare_spec(left@, right@));
        }
        DiffResult { changes }
    }
}


// ---------------------------------------------------------------------------
// Executable comparison.
// ---------------------------------------------------------------------------
fn join_seg_chars(path: &Vec<char>, name: &Vec<char>) -> (r: Vec<char>)
    ensures
        r@ == join_seg(path@, name@),
{
    let mut r: Vec<char> = Vec::new();
    if path.len() == 0 {
        crate::text::push_chars(&mut r, name);
        proof {
            assert(r@ =~= join_seg(path@, name@));
        }
        return r;
    }
    crate::text::push_chars(&mut r, path);
    r.push('\\');
    crate::text::push_chars(&mut r, name);
    proof {
        assert(r@ =~= path@ + seq!['\\'] + name@);
    }
    r
}

fn opt_string_eq(a: &Option<String>, b: &Option<String>) -> (r: bool)
    ensures
        r == (opt_view(*a) == opt_view(*b)),
{
    match (a, b) {
        (Option::None, Option::None) => true,
        (Option::Some(x), Option::Some(y)) => {
            let xc = str_chars(x.as_str());
            let yc = str_chars(y.as_str());
            crate::text::chars_eq(&xc, &yc)
        },
        _ => false,
    }
}

fn opt_string_dup(a: &Option<String>) -> (r: Option<String>)
    ensures
        opt_view(r) == opt_view(*a),
{
    match a {
        Option::Some(x) => Some(x.clone()),
        Option::None => None,
    }
}

/// Find a value slot by its (folded) storage key.
fn find_entry(k: &RegistryKey, key: &Vec<char>) -> (r: Option<usize>)
    ensures
        match r {
            Some(i) => i < k@.values.len() && k@.values[i as int].key == key@ && has_entry_key(
                k@.values,
                key@,
            ),
            None => !has_entry_key(k@.values, key@),
        },
{
    let mut i: usize = 0;
    while i < k.values.len()
        invariant
            i <= k.values@.len(),
            k@.values.len() == k.values@.len(),
            forall|j: int| 0 <= j < i ==> (#[trigger] k@.values[j]).key != key@,
        decreases k.values@.len() - i,
    {
        proof {
            assert(k@.values[i as int] == k.values@[i as int]@);
        }
        let kc = str_chars(k.values[i].key.as_str());
        if crate::text::chars_eq(&kc, key) {
            return Some(i);
        }
        i += 1;
    }
    None
}

fn push_values_added(l: &RegistryKey, r: &RegistryKey, path: &Vec<char>, out: &mut Vec<
    RegistryChange,
>)
    requires
        l@.wf(),
        r@.wf(),
    ensures
        final (out).deep_view() == old(out).deep_view() + values_added(
            l@.values,
            r@.values,
            path@,
        ),
{
    let ps = chars_to_string(path);
    let mut i: usize = 0;
    proof {
        assert(r@.values.skip(0) =~= r@.values);
    }
    while i < r.values.len()
        invariant
            l@.wf(),
            r@.wf(),
            i <= r.values@.len(),
            r@.values.len() == r.values@.len(),
            ps@ == path@,
            old(out).deep_view() + values_added(l@.values, r@.values, path@) =~= out.deep_view()
                + values_added(l@.values, r@.values.skip(i as int), path@),
        decreases r.values@.len() - i,
    {
        proof {
            assert(r@.values.skip(i as int)[0] == r@.values[i as int]);
            assert(r@.values.skip(i as int).skip(1) =~= r@.values.skip(i as int + 1));
            assert(r@.values[i as int] == r.values@[i as int]@);
        }
        let key = str_chars(r.values[i].key.as_str());
        if find_entry(l, &key).is_none() {
            let ghost pre = out.deep_view();
            let v = r.values[i].value.duplicate();
            let nm = v.name.clone();
            out.push(RegistryChange::ValueAdded(ps.clone(), nm, v));
            proof {
                let ev = r@.values[i as int];
                assert(out.deep_view() =~= pre.push(
                    ChangeView::ValueAdded(path@, ev.value.name, ev.value),
                ));
            }
        }
        i += 1;
    }
    proof {
        assert(r@.values.skip(r@.values.len() as int) =~= Seq::<EntryView>::empty());
        assert(out.deep_view() =~= old(out).deep_view() + values_added(
            l@.values,
            r@.values,
            path@,
        ));
    }
}

fn push_values_deleted(l: &RegistryKey, r: &RegistryKey, path: &Vec<char>, out: &mut Vec<
    RegistryChange,
>)
    requires
        l@.wf(),
        r@.wf(),
    ensures
        final (out).deep_view() == old(out).deep_view() + values_deleted(
            l@.values,
            r@.values,
            path@,
        ),
{
    let ps = chars_to_string(path);
    let mut i: usize = 0;
    proof {
        assert(l@.values.skip(0) =~= l@.values);
    }
    while i < l.values.len()
        invariant
            l@.wf(),
            r@.wf(),
            i <= l.values@.len(),
            l@.values.len() == l.values@.len(),
            ps@ == path@,
            old(out).deep_view() + values_deleted(l@.values, r@.values, path@) =~= out.deep_view()
                + values_deleted(l@.values.skip(i as int), r@.values, path@),
        decreases l.values@.len() - i,
    {
        proof {
            assert(l@.values.skip(i as int)[0] == l@.values[i as int]);
            assert(l@.values.skip(i as int).skip(1) =~= l@.values.skip(i as int + 1));
            assert(l@.values[i as int] == l.values@[i as int]@);
        }
        let key = str_chars(l.values[i].key.as_str());
        if find_entry(r, &key).is_none() {
            let ghost pre = out.deep_view();
            let v = l.values[i].value.duplicate();
            let nm = v.name.clone();
            out.push(RegistryChange::ValueDeleted(ps.clone(), nm, v));
            proof {
                let ev = l@.values[i as int];
                assert(out.deep_view() =~= pre.push(
                    ChangeView::ValueDeleted(path@, ev.value.name, ev.value),
                ));
            }
        }
        i += 1;
    }
    proof {
        assert(l@.values.skip(l@.values.len() as int) =~= Seq::<EntryView>::empty());
        assert(out.deep_view() =~= old(out).deep_view() + values_deleted(
            l@.values,
            r@.values,
            path@,
        ));
    }
}

fn push_values_modified(l: &RegistryKey, r: &RegistryKey, path: &Vec<char>, out: &mut Vec<
    RegistryChange,
>)
    requires
        l@.wf(),
        r@.wf(),
    ensures
        final (out).deep_view() == old(out).deep_view() + values_modified(
            l@.values,
            r@.values,
            path@,
        ),
{
    let ps = chars_to_string(path);
    let mut i: usize = 0;
    proof {
        assert(l@.values.skip(0) =~= l@.values);
    }
    while i < l.values.len()
        invariant
            l@.wf(),
            r@.wf(),
            i <= l.values@.len(),
            l@.values.len() == l.values@.len(),
            ps@ == path@,
            old(out).deep_view() + values_modified(l@.values, r@.values, path@) =~= out.deep_view()
                + values_modified(l@.values.skip(i as int), r@.values, path@),
        decreases l.values@.len() - i,
    {
        proof {
            assert(l@.values.skip(i as int)[0] == l@.values[i as int]);
            assert(l@.values.skip(i as int).skip(1) =~= l@.values.skip(i as int + 1));
            assert(l@.values[i as int] == l.values@[i as int]@);
        }
        let key = str_chars(l.values[i].key.as_str());
        match find_entry(r, &key) {
            Some(j) => {
                proof {
                    assert(r@.values[j as int] == r.values@[j as int]@);
                    lemma_value_index_unique(r@, j as int, entry_index(r@.values, key@));
                }
                if !values_equal(&l.values[i].value, &r.values[j].value) {
                    let ghost pre = out.deep_view();
                    let a = l.values[i].value.duplicate();
                    let b = r.values[j].value.duplicate();
                    let nm = a.name.clone();
                    out.push(RegistryChange::ValueModified(ps.clone(), nm, a, b));
                    proof {
                        assert(out.deep_view() =~= pre.push(
                            ChangeView::ValueModified(
                                path@,
                                l@.values[i as int].value.name,
                                l@.values[i as int].value,
                                r@.values[entry_index(r@.values, l@.values[i as int].key)].value,
                            ),
                        ));
                    }
                }
            },
            None => {
            },
        }
        i += 1;
    }
    proof {
        assert(l@.values.skip(l@.values.len() as int) =~= Seq::<EntryView>::empty());
        assert(out.deep_view() =~= old(out).deep_view() + values_modified(
            l@.values,
            r@.values,
            path@,
        ));
    }
}

fn push_subtree(k: &RegistryKey, path: &Vec<char>, add: bool, out: &mut Vec<RegistryChange>)
    requires
        k@.wf(),
    ensures
        add ==> final (out).deep_view() == old(out).deep_view() + add_subtree(k@, path@),
        !add ==> final (out).deep_view() == old(out).deep_view() + del_subtree(k@, path@),
    decreases *k,
{
    let e = RegistryKey::create_root();
    if add {
        push_values_added(&e, k, path, out);
        proof {
            assert(values_added(Seq::<EntryView>::empty(), k@.values, path@) =~= values_added(
                e@.values,
                k@.values,
                path@,
            ));
        }
    } else {
        push_values_deleted(k, &e, path, out);
        proof {
            assert(values_deleted(k@.values, Seq::<EntryView>::empty(), path@) =~= values_deleted(
                k@.values,
                e@.values,
                path@,
            ));
        }
    }
    let mut i: usize = 0;
    let ghost base = out.deep_view();
    proof {
        lemma_views_of(k.subkeys@);
        assert(k@.subkeys.skip(0) =~= k@.subkeys);
    }
    while i < k.subkeys.len()
        invariant
            k@.wf(),
            i <= k.subkeys@.len(),
            k@.subkeys.len() == k.subkeys@.len(),
            add ==> base + add_children(k@.subkeys, path@) =~= out.deep_view() + add_children(
                k@.subkeys.skip(i as int),
                path@,
            ),
            !add ==> base + del_children(k@.subkeys, path@) =~= out.deep_view() + del_children(
                k@.subkeys.skip(i as int),
                path@,
            ),
        decreases k.subkeys@.len() - i,
    {
        proof {
            lemma_views_of(k.subkeys@);
            assert(k@.subkeys.skip(i as int)[0] == k@.subkeys[i as int]);
            assert(k@.subkeys.skip(i as int).skip(1) =~= k@.subkeys.skip(i as int + 1));
            assert(k.subkeys@[i as int]@ == k@.subkeys[i as int]);
            assert(decreases_to!(*k => k.subkeys));
            assert(decreases_to!(k.subkeys => k.subkeys[i as int]));
        }
        let child = &k.subkeys[i];
        let nc = str_chars(child.name.as_str());
        let fname = fold_chars(&nc);
        let sub = join_seg_chars(path, &fname);
        let ghost pre = out.deep_view();
        if add {
            out.push(RegistryChange::KeyAdded(chars_to_string(&sub)));
            proof {
                assert(out.deep_view() =~= pre.push(
                    ChangeView::KeyAdded(join_seg(path@, fold_seq(k@.subkeys[i as int].name))),
                ));
            }
        } else {
            out.push(RegistryChange::KeyDeleted(chars_to_string(&sub)));
            proof {
                assert(out.deep_view() =~= pre.push(
                    ChangeView::KeyDeleted(join_seg(path@, fold_seq(k@.subkeys[i as int].name))),
                ));
            }
        }
        push_subtree(child, &sub, add, out);
        i += 1;
    }
    proof {
        assert(k@.subkeys.skip(k@.subkeys.len() as int) =~= Seq::<KeyView>::empty());
        if add {
            assert(out.deep_view() =~= old(out).deep_view() + add_subtree(k@, path@));
        } else {
            assert(out.deep_view() =~= old(out).deep_view() + del_subtree(k@, path@));
        }
    }
}

fn compare_pair_exec(l: &RegistryKey, r: &RegistryKey, path: &Vec<char>, out: &mut Vec<
    RegistryChange,
>)
    requires
        l@.wf(),
        r@.wf(),
    ensures
        final (out).deep_view() == old(out).deep_view() + compare_pair(l@, r@, path@),
    decreases *l, *r,
{
    // property changes
    let mut props: Vec<KeyPropertyChange> = Vec::new();
    if !opt_string_eq(&l.class_name, &r.class_name) {
        props.push(
            KeyPropertyChange::ClassNameChange(
                opt_string_dup(&l.class_name),
                opt_string_dup(&r.class_name),
            ),
        );
    }
    if l.is_symlink != r.is_symlink {
        props.push(KeyPropertyChange::SymlinkChange(l.is_symlink, r.is_symlink));
    }
    if l.is_volatile != r.is_volatile {
        props.push(KeyPropertyChange::VolatileChange(l.is_volatile, r.is_volatile));
    }
    proof {
        assert(props.deep_view() =~= props_diff(l@, r@));
        assert(Seq::new(props@.len(), |i: int| props@[i]@) =~= props.deep_view());
    }
    if props.len() > 0 {
        out.push(RegistryChange::KeyModified(chars_to_string(path), props));
        proof {
            assert(out.deep_view() =~= old(out).deep_view() + seq![
                ChangeView::KeyModified(path@, props_diff(l@, r@)),
            ]);
        }
    } else {
        proof {
            assert(out.deep_view() =~= old(out).deep_view());
        }
    }
    push_values_added(l, r, path, out);
    push_values_deleted(l, r, path, out);
    push_values_modified(l, r, path, out);
    // children, merged in folded-name order
    let mut i: usize = 0;
    let mut j: usize = 0;
    let ghost base = out.deep_view();
    proof {
        lemma_views_of(l.subkeys@);
        lemma_views_of(r.subkeys@);
        assert(l@.subkeys.skip(0) =~= l@.subkeys);
        assert(r@.subkeys.skip(0) =~= r@.subkeys);
    }
    while i < l.subkeys.len() || j < r.subkeys.len()
        invariant
            l@.wf(),
            r@.wf(),
            i <= l.subkeys@.len(),
            j <= r.subkeys@.len(),
            l@.subkeys.len() == l.subkeys@.len(),
            r@.subkeys.len() == r.subkeys@.len(),
            base + compare_children(l@.subkeys, r@.subkeys, path@) =~= out.deep_view()
                + compare_children(l@.subkeys.skip(i as int), r@.subkeys.skip(j as int), path@),
        decreases l.subkeys@.len() - i + r.subkeys@.len() - j,
    {
        proof {
            lemma_views_of(l.subkeys@);
            lemma_views_of(r.subkeys@);
            if i < l.subkeys@.len() {
                assert(l@.subkeys.skip(i as int)[0] == l@.subkeys[i as int]);
                assert(l@.subkeys.skip(i as int).skip(1) =~= l@.subkeys.skip(i as int + 1));
                assert(l.subkeys@[i as int]@ == l@.subkeys[i as int]);
            }
            if j < r.subkeys@.len() {
                assert(r@.subkeys.skip(j as int)[0] == r@.subkeys[j as int]);
                assert(r@.subkeys.skip(j as int).skip(1) =~= r@.subkeys.skip(j as int + 1));
                assert(r.subkeys@[j as int]@ == r@.subkeys[j as int]);
            }
        }
        if j >= r.subkeys.len() {
            let child = &l.subkeys[i];
            proof {
                assert(decreases_to!(*l => l.subkeys));
                assert(decreases_to!(l.subkeys => l.subkeys[i as int]));
            }
            let nc = str_chars(child.name.as_str());
            let fname = fold_chars(&nc);
            let sub = join_seg_chars(path, &fname);
            out.push(RegistryChange::KeyDeleted(chars_to_string(&sub)));
            push_subtree(child, &sub, false, out);
            i += 1;
        } else if i >= l.subkeys.len() {
            let child = &r.subkeys[j];
            let nc = str_chars(child.name.as_str());
            let fname = fold_chars(&nc);
            let sub = join_seg_chars(path, &fname);
            out.push(RegistryChange::KeyAdded(chars_to_string(&sub)));
            push_subtree(child, &sub, true, out);
            j += 1;
        } else {
            let lc = &l.subkeys[i];
            let rc = &r.subkeys[j];
            let lnc = str_chars(lc.name.as_str());
            let rnc = str_chars(rc.name.as_str());
            let lf = fold_chars(&lnc);
            let rf = fold_chars(&rnc);
            let c = lex_cmp(&lf, &rf);
            if c < 0 {
                let sub = join_seg_chars(path, &lf);
                out.push(RegistryChange::KeyDeleted(chars_to_string(&sub)));
                push_subtree(lc, &sub, false, out);
                i += 1;
            } else if c > 0 {
                let sub = join_seg_chars(path, &rf);
                out.push(RegistryChange::KeyAdded(chars_to_string(&sub)));
                push_subtree(rc, &sub, true, out);
                j += 1;
            } else {
                proof {
                    assert(decreases_to!(*l => l.subkeys));
                    assert(decreases_to!(l.subkeys => l.subkeys[i as int]));
                    assert(decreases_to!(*r => r.subkeys));
                    assert(decreases_to!(r.subkeys => r.subkeys[j as int]));
                }
                let sub = join_seg_chars(path, &lf);
                compare_pair_exec(lc, rc, &sub, out);
                i += 1;
                j += 1;
            }
        }
    }
    proof {
        assert(l@.subkeys.skip(l@.subkeys.len() as int) =~= Seq::<KeyView>::empty());
        assert(r@.subkeys.skip(r@.subkeys.len() as int) =~= Seq::<KeyView>::empty());
        assert(out.deep_view() =~= old(out).deep_view() + compare_pair(l@, r@, path@));
    }
}

} // verus!
