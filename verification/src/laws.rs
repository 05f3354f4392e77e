use vstd::prelude::*;
use crate::text::{fold_seq, lower_seq, lex_lt, lemma_fold_case_insensitive, lemma_lex_trichotomy};
use crate::registry_key::{KeyView, EntryView, sorted_subkeys, sorted_entries, MetaUpdateView,
    lemma_subkey_index_unique, lemma_value_index_unique};
use crate::registry_value::ValueView;
use crate::registry_comparator::{ChangeView, PropView, props_diff, values_added, values_deleted,
    values_modified, compare_children, compare_pair, compare_spec, has_entry_key, entry_index};
use crate::registry_patcher::{PatchOptions, order_spec, apply_list_spec, filter_kind,
    sort_by_depth_asc, sort_by_depth_desc, insert_by_depth_asc, insert_by_depth_desc, is_key_added,
    is_key_modified, is_value_added, is_value_modified, is_value_deleted, is_key_deleted,
    FailureView};
use crate::registry_parser::{spec_load, parse_from, ParseStateView, initial_state, split_lines,
    lemma_join_cont_bound, join_cont};

verus! {

// ---------------------------------------------------------------------------
// Case-insensitive lookup: a name, its ASCII-uppercase form, and its
// ASCII-lowercase form all find the same entry.
// ---------------------------------------------------------------------------
pub proof fn law_lookup_case_insensitive(k: KeyView, n: Seq<char>)
    ensures
        k.has_value(n) == k.has_value(fold_seq(n)),
        k.has_value(n) == k.has_value(lower_seq(n)),
        k.has_value(n) ==> k.value_of(n) == k.value_of(fold_seq(n)) && k.value_of(n) == k.value_of(
            lower_seq(n),
        ),
        k.has_subkey(n) == k.has_subkey(fold_seq(n)),
        k.has_subkey(n) == k.has_subkey(lower_seq(n)),
        k.has_subkey(n) ==> k.subkey_of(n) == k.subkey_of(fold_seq(n)) && k.subkey_of(n)
            == k.subkey_of(lower_seq(n)),
{
    lemma_fold_case_insensitive(n);
}

// ---------------------------------------------------------------------------
// Dirty propagation: setting a value through a path that resolves dirties
// the target key and every ancestor along the path.
// ---------------------------------------------------------------------------

/// Every key along `segs` is dirty.
pub open spec fn dirty_along(k: KeyView, segs: Seq<Seq<char>>) -> bool
    decreases segs.len(),
{
    &&& k.is_dirty
    &&& (segs.len() == 0 || (k.has_subkey(segs[0]) && dirty_along(
        k.subkey_of(segs[0]),
        segs.skip(1),
    )))
}

proof fn lemma_set_value_at_names(k: KeyView, segs: Seq<Seq<char>>, n: Seq<char>, v: ValueView)
    ensures
        k.set_value_at_spec(segs, n, v, true).name == k.name,
{
}

pub proof fn law_dirty_propagation(k: KeyView, segs: Seq<Seq<char>>, n: Seq<char>, v: ValueView)
    requires
        k.wf(),
        k.path_exists(segs),
    ensures
        dirty_along(k.set_value_at_spec(segs, n, v, true), segs),
    decreases segs.len(),
{
    let r = k.set_value_at_spec(segs, n, v, true);
    if segs.len() == 0 {
        assert(r.is_dirty);
    } else {
        let i = k.subkey_index(segs[0]);
        let c = k.subkeys[i];
        let c2 = c.set_value_at_spec(segs.skip(1), n, v, true);
        law_dirty_propagation(c, segs.skip(1), n, v);
        lemma_set_value_at_names(c, segs.skip(1), n, v);
        assert(r.subkeys[i] == c2);
        assert(r.has_subkey(segs[0])) by {
            assert(fold_seq(r.subkeys[i].name) == fold_seq(segs[0]));
        }
        let j = r.subkey_index(segs[0]);
        assert(fold_seq(r.subkeys[j].name) == fold_seq(segs[0]));
        assert forall|a: int, b: int|
            0 <= a < b < r.subkeys.len() implies lex_lt(
            fold_seq((#[trigger] r.subkeys[a]).name),
            fold_seq((#[trigger] r.subkeys[b]).name),
        ) by {
            assert(r.subkeys[a].name == k.subkeys[a].name);
            assert(r.subkeys[b].name == k.subkeys[b].name);
        }
        lemma_subkey_index_unique(r, i, j);
        assert(r.subkey_of(segs[0]) == c2);
        assert(r.is_dirty);
    }
}

// ---------------------------------------------------------------------------
// Freshly parsed trees are clean: no key of a parse result is dirty.
// ---------------------------------------------------------------------------

/// No key of the tree is dirty.
pub open spec fn all_clean(k: KeyView) -> bool
    decreases k,
{
    !k.is_dirty && (forall|i: int|
        0 <= i < k.subkeys.len() ==> all_clean(#[trigger] k.subkeys[i]))
}

proof fn lemma_fresh_chain_clean(name: Seq<char>, rest: Seq<Seq<char>>)
    ensures
        all_clean(KeyView::fresh_chain(name, rest, false)),
    decreases rest.len(),
{
    let c = KeyView::fresh_chain(name, rest, false);
    if rest.len() > 0 {
        lemma_fresh_chain_clean(rest[0], rest.skip(1));
        assert forall|i: int| 0 <= i < c.subkeys.len() implies all_clean(
            #[trigger] c.subkeys[i],
        ) by {
            assert(c.subkeys[i] == KeyView::fresh_chain(rest[0], rest.skip(1), false));
        }
    }
}

proof fn lemma_create_loading_clean(k: KeyView, segs: Seq<Seq<char>>)
    requires
        all_clean(k),
    ensures
        all_clean(k.create_path(segs, false)),
    decreases segs.len(),
{
    let r = k.create_path(segs, false);
    if segs.len() == 0 {
    } else if k.has_subkey(segs[0]) {
        let i = k.subkey_index(segs[0]);
        lemma_create_loading_clean(k.subkeys[i], segs.skip(1));
        assert forall|t: int| 0 <= t < r.subkeys.len() implies all_clean(
            #[trigger] r.subkeys[t],
        ) by {
            if t != i {
                assert(r.subkeys[t] == k.subkeys[t]);
            }
        }
    } else {
        lemma_fresh_chain_clean(segs[0], segs.skip(1));
        lemma_insert_child_clean(k.subkeys, KeyView::fresh_chain(segs[0], segs.skip(1), false));
    }
}

proof fn lemma_insert_child_clean(s: Seq<KeyView>, c: KeyView)
    requires
        forall|i: int| 0 <= i < s.len() ==> all_clean(#[trigger] s[i]),
        all_clean(c),
    ensures
        forall|i: int|
            0 <= i < crate::registry_key::insert_child(s, c).len() ==> all_clean(
                #[trigger] crate::registry_key::insert_child(s, c)[i],
            ),
    decreases s.len(),
{
    let r = crate::registry_key::insert_child(s, c);
    if s.len() == 0 {
        assert forall|i: int| 0 <= i < r.len() implies all_clean(#[trigger] r[i]) by {
            assert(r[i] == c);
        }
    } else if fold_seq(c.name) == fold_seq(s[0].name) {
        assert forall|i: int| 0 <= i < r.len() implies all_clean(#[trigger] r[i]) by {
            if i == 0 {
                assert(r[0] == c);
            } else {
                assert(r[i] == s.skip(1)[i - 1]);
                assert(s.skip(1)[i - 1] == s[i]);
            }
        }
    } else if lex_lt(fold_seq(c.name), fold_seq(s[0].name)) {
        assert forall|i: int| 0 <= i < r.len() implies all_clean(#[trigger] r[i]) by {
            if i == 0 {
                assert(r[0] == c);
            } else {
                assert(r[i] == s[i - 1]);
            }
        }
    } else {
        assert(forall|i: int| 0 <= i < s.skip(1).len() ==> #[trigger] s.skip(1)[i] == s[i + 1]);
        lemma_insert_child_clean(s.skip(1), c);
        let r2 = crate::registry_key::insert_child(s.skip(1), c);
        assert forall|i: int| 0 <= i < r.len() implies all_clean(#[trigger] r[i]) by {
            if i == 0 {
                assert(r[0] == s[0]);
            } else {
                assert(r[i] == r2[i - 1]);
            }
        }
    }
}

proof fn lemma_meta_clean(k: KeyView, segs: Seq<Seq<char>>, u: MetaUpdateView)
    requires
        all_clean(k),
    ensures
        all_clean(k.meta_at_spec(segs, u)),
    decreases segs.len(),
{
    let r = k.meta_at_spec(segs, u);
    if segs.len() == 0 {
        assert(r.is_dirty == k.is_dirty);
        assert forall|t: int| 0 <= t < r.subkeys.len() implies all_clean(
            #[trigger] r.subkeys[t],
        ) by {
            assert(r.subkeys[t] == k.subkeys[t]);
        }
    } else if k.has_subkey(segs[0]) {
        let i = k.subkey_index(segs[0]);
        lemma_meta_clean(k.subkeys[i], segs.skip(1), u);
        assert forall|t: int| 0 <= t < r.subkeys.len() implies all_clean(
            #[trigger] r.subkeys[t],
        ) by {
            if t != i {
                assert(r.subkeys[t] == k.subkeys[t]);
            }
        }
    }
}

proof fn lemma_set_loading_clean(k: KeyView, segs: Seq<Seq<char>>, n: Seq<char>, v: ValueView)
    requires
        all_clean(k),
    ensures
        all_clean(k.set_value_at_spec(segs, n, v, false)),
    decreases segs.len(),
{
    let r = k.set_value_at_spec(segs, n, v, false);
    if segs.len() == 0 {
        assert(r.is_dirty == k.is_dirty);
        assert forall|t: int| 0 <= t < r.subkeys.len() implies all_clean(
            #[trigger] r.subkeys[t],
        ) by {
            assert(r.subkeys[t] == k.subkeys[t]);
        }
    } else if k.has_subkey(segs[0]) {
        let i = k.subkey_index(segs[0]);
        lemma_set_loading_clean(k.subkeys[i], segs.skip(1), n, v);
        assert forall|t: int| 0 <= t < r.subkeys.len() implies all_clean(
            #[trigger] r.subkeys[t],
        ) by {
            if t != i {
                assert(r.subkeys[t] == k.subkeys[t]);
            }
        }
    }
}

proof fn lemma_parse_from_clean(lines: Seq<Seq<char>>, i: int, st: ParseStateView)
    requires
        all_clean(st.root),
    ensures
        parse_from(lines, i, st) matches Ok(st2) ==> all_clean(st2.root),
    decreases lines.len() - i,
{
    if 0 <= i < lines.len() {
        let t = crate::text::trim_spec(lines[i]);
        proof_literal_heads(t);
        if t.len() > 0 && t[0] == '[' {
            match crate::registry_parser::spec_parse_key_header(t) {
                Ok(pt) => {
                    let segs = crate::registry_key::split_path(
                        crate::registry_parser::spec_unescape_path(pt.0),
                    );
                    let r1 = st.root.create_path(segs, false);
                    lemma_create_loading_clean(st.root, segs);
                    let ft: u64 = match pt.1 {
                        Some(secs) => crate::registry_utils::spec_timestamp_to_filetime(
                            crate::registry_parser::clamp_seconds(secs),
                        ),
                        None => 0,
                    };
                    lemma_meta_clean(r1, segs, MetaUpdateView::Time(ft));
                    let r2 = r1.meta_at_spec(segs, MetaUpdateView::Time(ft));
                    lemma_parse_from_clean(
                        lines,
                        i + 1,
                        ParseStateView { root: r2, current: Some(segs), ..st },
                    );
                },
                Err(_) => {
                },
            }
        } else if t.len() == 0 || crate::text::starts_with(
            t,
            ";; All keys relative to "@,
        ) || t[0] == ';' || crate::text::starts_with(t, "#arch="@) {
            if t.len() == 0 {
                lemma_parse_from_clean(lines, i + 1, st);
            } else if crate::text::starts_with(t, ";; All keys relative to "@) {
                lemma_parse_from_clean(
                    lines,
                    i + 1,
                    ParseStateView { base: t.skip(";; All keys relative to "@.len() as int), ..st },
                );
            } else if t[0] == ';' {
                lemma_parse_from_clean(lines, i + 1, st);
            } else {
                let a = crate::architecture::spec_from_tag(t.skip(6));
                lemma_parse_from_clean(
                    lines,
                    i + 1,
                    ParseStateView {
                        arch: if a is Some {
                            a.unwrap()
                        } else {
                            st.arch
                        },
                        ..st
                    },
                );
            }
        } else if crate::text::starts_with(t, "#time="@) {
            if st.current is Some {
                let h = crate::text::trim_spec(t.skip(6));
                if crate::text::is_radix_seq(h, 16) && crate::text::radix_val(h, 16) <= u64::MAX {
                    lemma_meta_clean(
                        st.root,
                        st.current.unwrap(),
                        MetaUpdateView::Time(crate::text::radix_val(h, 16) as u64),
                    );
                    lemma_parse_from_clean(
                        lines,
                        i + 1,
                        ParseStateView {
                            root: st.root.meta_at_spec(
                                st.current.unwrap(),
                                MetaUpdateView::Time(crate::text::radix_val(h, 16) as u64),
                            ),
                            ..st
                        },
                    );
                } else {
                    lemma_parse_from_clean(lines, i + 1, st);
                }
            } else {
                lemma_parse_from_clean(lines, i + 1, st);
            }
        } else if crate::text::starts_with(t, "#class="@) {
            if st.current is Some {
                let cls = crate::text::trim_spec(t.skip(7));
                let unq = crate::registry_parser::trim_quotes(cls);
                let u = MetaUpdateView::ClassName(
                    Some(crate::registry_parser::spec_unescape(unq)),
                );
                lemma_meta_clean(st.root, st.current.unwrap(), u);
                lemma_parse_from_clean(
                    lines,
                    i + 1,
                    ParseStateView {
                        root: st.root.meta_at_spec(st.current.unwrap(), u),
                        ..st
                    },
                );
            } else {
                lemma_parse_from_clean(lines, i + 1, st);
            }
        } else if crate::text::starts_with(t, "#link"@) {
            if st.current is Some {
                lemma_meta_clean(st.root, st.current.unwrap(), MetaUpdateView::Symlink(true));
                lemma_parse_from_clean(
                    lines,
                    i + 1,
                    ParseStateView {
                        root: st.root.meta_at_spec(
                            st.current.unwrap(),
                            MetaUpdateView::Symlink(true),
                        ),
                        ..st
                    },
                );
            } else {
                lemma_parse_from_clean(lines, i + 1, st);
            }
        } else if t[0] == '@' || t[0] == '"' {
            let bc = join_cont(lines.skip(i + 1), t);
            lemma_join_cont_bound(lines.skip(i + 1), t);
            match crate::registry_parser::spec_parse_value_line(bc.0) {
                Ok(vv) => match st.current {
                    Some(cur) => {
                        lemma_set_loading_clean(st.root, cur, vv.name, vv);
                        lemma_parse_from_clean(
                            lines,
                            i + 1 + bc.1,
                            ParseStateView {
                                root: st.root.set_value_at_spec(cur, vv.name, vv, false),
                                ..st
                            },
                        );
                    },
                    None => {
                    },
                },
                Err(_) => {
                },
            }
        } else {
            lemma_parse_from_clean(lines, i + 1, st);
        }
    }
}

/// When a line starts with one of the grammar's marker prefixes, its first
/// character is that marker's first character.
proof fn proof_literal_heads(t: Seq<char>)
    ensures
        crate::text::starts_with(t, ";; All keys relative to "@) ==> t.len() > 0 && t[0] == ';',
        crate::text::starts_with(t, "#arch="@) ==> t.len() > 0 && t[0] == '#',
        crate::text::starts_with(t, "#time="@) ==> t.len() > 0 && t[0] == '#',
        crate::text::starts_with(t, "#class="@) ==> t.len() > 0 && t[0] == '#',
        crate::text::starts_with(t, "#link"@) ==> t.len() > 0 && t[0] == '#',
        ";; All keys relative to "@.len() == 24,
        "#arch="@.len() == 6,
        "#time="@.len() == 6,
        "#class="@.len() == 7,
        "#link"@.len() == 5,
{
    reveal_strlit(";; All keys relative to ");
    reveal_strlit("#arch=");
    reveal_strlit("#time=");
    reveal_strlit("#class=");
    reveal_strlit("#link");
    if crate::text::starts_with(t, ";; All keys relative to "@) {
        assert(t.take(24)[0] == t[0]);
    }
    if crate::text::starts_with(t, "#arch="@) {
        assert(t.take(6)[0] == t[0]);
    }
    if crate::text::starts_with(t, "#time="@) {
        assert(t.take(6)[0] == t[0]);
    }
    if crate::text::starts_with(t, "#class="@) {
        assert(t.take(7)[0] == t[0]);
    }
    if crate::text::starts_with(t, "#link"@) {
        assert(t.take(5)[0] == t[0]);
    }
}

/// A freshly parsed tree has no dirty key anywhere.
pub proof fn law_parsed_trees_clean(text: Seq<char>)
    ensures
        spec_load(text) matches Ok(st) ==> all_clean(st.root),
{
    let lines = split_lines(text);
    if lines.len() > 0 && crate::text::trim_spec(lines[0]) == "WINE REGISTRY Version 2"@ {
        lemma_parse_from_clean(lines, 1, initial_state());
    }
}


// ---------------------------------------------------------------------------
// Comparing a tree with itself yields no changes, and applying an empty
// change list changes nothing.
// ---------------------------------------------------------------------------
proof fn lemma_values_added_none(lvals: Seq<EntryView>, rvals: Seq<EntryView>, path: Seq<char>)
    requires
        forall|j: int| 0 <= j < rvals.len() ==> has_entry_key(lvals, (#[trigger] rvals[j]).key),
    ensures
        values_added(lvals, rvals, path) == Seq::<ChangeView>::empty(),
    decreases rvals.len(),
{
    if rvals.len() > 0 {
        assert(forall|j: int|
            0 <= j < rvals.skip(1).len() ==> #[trigger] rvals.skip(1)[j] == rvals[j + 1]);
        lemma_values_added_none(lvals, rvals.skip(1), path);
        assert(values_added(lvals, rvals, path) =~= Seq::<ChangeView>::empty());
    }
}

proof fn lemma_values_deleted_none(lvals: Seq<EntryView>, rvals: Seq<EntryView>, path: Seq<char>)
    requires
        forall|j: int| 0 <= j < lvals.len() ==> has_entry_key(rvals, (#[trigger] lvals[j]).key),
    ensures
        values_deleted(lvals, rvals, path) == Seq::<ChangeView>::empty(),
    decreases lvals.len(),
{
    if lvals.len() > 0 {
        assert(forall|j: int|
            0 <= j < lvals.skip(1).len() ==> #[trigger] lvals.skip(1)[j] == lvals[j + 1]);
        lemma_values_deleted_none(lvals.skip(1), rvals, path);
        assert(values_deleted(lvals, rvals, path) =~= Seq::<ChangeView>::empty());
    }
}

proof fn lemma_values_modified_none(lvals: Seq<EntryView>, rvals: Seq<EntryView>, path: Seq<char>)
    requires
        sorted_entries(rvals),
        forall|j: int|
            0 <= j < lvals.len() ==> (has_entry_key(rvals, (#[trigger] lvals[j]).key)
                ==> rvals[entry_index(rvals, lvals[j].key)].value == lvals[j].value),
    ensures
        values_modified(lvals, rvals, path) == Seq::<ChangeView>::empty(),
    decreases lvals.len(),
{
    if lvals.len() > 0 {
        assert(forall|j: int|
            0 <= j < lvals.skip(1).len() ==> #[trigger] lvals.skip(1)[j] == lvals[j + 1]);
        lemma_values_modified_none(lvals.skip(1), rvals, path);
        assert(values_modified(lvals, rvals, path) =~= Seq::<ChangeView>::empty());
    }
}

proof fn lemma_compare_pair_self(k: KeyView, path: Seq<char>)
    requires
        k.wf(),
    ensures
        compare_pair(k, k, path) == Seq::<ChangeView>::empty(),
    decreases k, 1int,
{
    assert(props_diff(k, k) =~= Seq::<PropView>::empty());
    lemma_values_added_none(k.values, k.values, path);
    lemma_values_deleted_none(k.values, k.values, path);
    assert forall|j: int|
        0 <= j < k.values.len() implies (has_entry_key(k.values, (#[trigger] k.values[j]).key)
        ==> k.values[entry_index(k.values, k.values[j].key)].value == k.values[j].value) by {
        if has_entry_key(k.values, k.values[j].key) {
            let e = entry_index(k.values, k.values[j].key);
            lemma_value_index_unique(k, e, j);
        }
    }
    lemma_values_modified_none(k.values, k.values, path);
    lemma_compare_children_self(k.subkeys, path);
    assert(compare_pair(k, k, path) =~= Seq::<ChangeView>::empty());
}

proof fn lemma_compare_children_self(s: Seq<KeyView>, path: Seq<char>)
    requires
        sorted_subkeys(s),
        forall|i: int| 0 <= i < s.len() ==> (#[trigger] s[i]).wf(),
    ensures
        compare_children(s, s, path) == Seq::<ChangeView>::empty(),
    decreases s, 2int,
{
    if s.len() > 0 {
        lemma_lex_trichotomy(fold_seq(s[0].name), fold_seq(s[0].name));
        lemma_compare_pair_self(
            s[0],
            crate::registry_comparator::join_seg(path, fold_seq(s[0].name)),
        );
        assert(forall|i: int|
            0 <= i < s.skip(1).len() ==> #[trigger] s.skip(1)[i] == s[i + 1]);
        lemma_compare_children_self(s.skip(1), path);
        assert(compare_children(s, s, path) =~= Seq::<ChangeView>::empty());
    }
}

/// Comparing any well-formed tree with itself yields the empty change list.
pub proof fn law_compare_self_empty(k: KeyView)
    requires
        k.wf(),
    ensures
        compare_spec(k, k) == Seq::<ChangeView>::empty(),
{
    lemma_compare_pair_self(k, Seq::empty());
}

/// Applying an empty change list leaves the tree untouched and reports
/// nothing applied and nothing failed.
pub proof fn law_apply_empty(t: KeyView, o: PatchOptions)
    ensures
        order_spec(Seq::<ChangeView>::empty()) == Seq::<ChangeView>::empty(),
        apply_list_spec(t, order_spec(Seq::<ChangeView>::empty()), o) == (
            t,
            Seq::<ChangeView>::empty(),
            Seq::<FailureView>::empty(),
        ),
{
    let e = Seq::<ChangeView>::empty();
    assert(filter_kind(e, |c: ChangeView| is_key_added(c)) =~= e);
    assert(filter_kind(e, |c: ChangeView| is_key_modified(c)) =~= e);
    assert(filter_kind(e, |c: ChangeView| is_value_added(c)) =~= e);
    assert(filter_kind(e, |c: ChangeView| is_value_modified(c)) =~= e);
    assert(filter_kind(e, |c: ChangeView| is_value_deleted(c)) =~= e);
    assert(filter_kind(e, |c: ChangeView| is_key_deleted(c)) =~= e);
    assert(order_spec(e) =~= e);
}

// ---------------------------------------------------------------------------
// Patch ordering: in the application order, every key addition comes before
// every value addition, whatever the input order was.
// ---------------------------------------------------------------------------
proof fn lemma_filter_kind_all(s: Seq<ChangeView>, kind: spec_fn(ChangeView) -> bool)
    ensures
        forall|i: int|
            0 <= i < filter_kind(s, kind).len() ==> kind(#[trigger] filter_kind(s, kind)[i]),
    decreases s.len(),
{
    if s.len() > 0 {
        lemma_filter_kind_all(s.skip(1), kind);
        let r = filter_kind(s, kind);
        assert forall|i: int| 0 <= i < r.len() implies kind(#[trigger] r[i]) by {
            if kind(s[0]) {
                if i > 0 {
                    assert(r[i] == filter_kind(s.skip(1), kind)[i - 1]);
                }
            } else {
                assert(r[i] == filter_kind(s.skip(1), kind)[i]);
            }
        }
    }
}

proof fn lemma_insert_depth_all(
    s: Seq<ChangeView>,
    c: ChangeView,
    kind: spec_fn(ChangeView) -> bool,
    asc: bool,
)
    requires
        forall|i: int| 0 <= i < s.len() ==> kind(#[trigger] s[i]),
        kind(c),
    ensures
        asc ==> forall|i: int|
            0 <= i < insert_by_depth_asc(s, c).len() ==> kind(
                #[trigger] insert_by_depth_asc(s, c)[i],
            ),
        !asc ==> forall|i: int|
            0 <= i < insert_by_depth_desc(s, c).len() ==> kind(
                #[trigger] insert_by_depth_desc(s, c)[i],
            ),
    decreases s.len(),
{
    if s.len() > 0 {
        assert(forall|i: int|
            0 <= i < s.skip(1).len() ==> #[trigger] s.skip(1)[i] == s[i + 1]);
        lemma_insert_depth_all(s.skip(1), c, kind, asc);
        if asc {
            let r = insert_by_depth_asc(s, c);
            let r2 = insert_by_depth_asc(s.skip(1), c);
            assert forall|i: int| 0 <= i < r.len() implies kind(#[trigger] r[i]) by {
                if crate::registry_patcher::depth_of(c) < crate::registry_patcher::depth_of(
                    s[0],
                ) {
                    if i == 0 {
                        assert(r[0] == c);
                    } else {
                        assert(r[i] == s[i - 1]);
                    }
                } else {
                    if i == 0 {
                        assert(r[0] == s[0]);
                    } else {
                        assert(r[i] == r2[i - 1]);
                    }
                }
            }
        } else {
            let r = insert_by_depth_desc(s, c);
            let r2 = insert_by_depth_desc(s.skip(1), c);
            assert forall|i: int| 0 <= i < r.len() implies kind(#[trigger] r[i]) by {
                if crate::registry_patcher::depth_of(c) > crate::registry_patcher::depth_of(
                    s[0],
                ) {
                    if i == 0 {
                        assert(r[0] == c);
                    } else {
                        assert(r[i] == s[i - 1]);
                    }
                } else {
                    if i == 0 {
                        assert(r[0] == s[0]);
                    } else {
                        assert(r[i] == r2[i - 1]);
                    }
                }
            }
        }
    } else {
        if asc {
            assert(forall|i: int|
                0 <= i < insert_by_depth_asc(s, c).len() ==> #[trigger] insert_by_depth_asc(
                    s,
                    c,
                )[i] == c);
        } else {
            assert(forall|i: int|
                0 <= i < insert_by_depth_desc(s, c).len() ==> #[trigger] insert_by_depth_desc(
                    s,
                    c,
                )[i] == c);
        }
    }
}

proof fn lemma_sort_depth_all(s: Seq<ChangeView>, kind: spec_fn(ChangeView) -> bool, asc: bool)
    requires
        forall|i: int| 0 <= i < s.len() ==> kind(#[trigger] s[i]),
    ensures
        asc ==> sort_by_depth_asc(s).len() == s.len() && (forall|i: int|
            0 <= i < sort_by_depth_asc(s).len() ==> kind(#[trigger] sort_by_depth_asc(s)[i])),
        !asc ==> sort_by_depth_desc(s).len() == s.len() && (forall|i: int|
            0 <= i < sort_by_depth_desc(s).len() ==> kind(#[trigger] sort_by_depth_desc(s)[i])),
    decreases s.len(),
{
    if s.len() > 0 {
        assert(forall|i: int|
            0 <= i < s.drop_last().len() ==> #[trigger] s.drop_last()[i] == s[i]);
        lemma_sort_depth_all(s.drop_last(), kind, asc);
        if asc {
            lemma_insert_depth_all(sort_by_depth_asc(s.drop_last()), s.last(), kind, asc);
            lemma_insert_depth_len(sort_by_depth_asc(s.drop_last()), s.last(), asc);
        } else {
            lemma_insert_depth_all(sort_by_depth_desc(s.drop_last()), s.last(), kind, asc);
            lemma_insert_depth_len(sort_by_depth_desc(s.drop_last()), s.last(), asc);
        }
    }
}

proof fn lemma_insert_depth_len(s: Seq<ChangeView>, c: ChangeView, asc: bool)
    ensures
        asc ==> insert_by_depth_asc(s, c).len() == s.len() + 1,
        !asc ==> insert_by_depth_desc(s, c).len() == s.len() + 1,
    decreases s.len(),
{
    if s.len() > 0 {
        lemma_insert_depth_len(s.skip(1), c, asc);
    }
}

/// In the application order every key addition stands before every value
/// addition: the key exists before its values are set, whatever the input
/// order was.
pub proof fn law_patch_ordering(s: Seq<ChangeView>, i: int, j: int)
    requires
        0 <= i < order_spec(s).len(),
        0 <= j < order_spec(s).len(),
        is_value_added(order_spec(s)[i]),
        is_key_added(order_spec(s)[j]),
    ensures
        j < i,
{
    let r = order_spec(s);
    let a = sort_by_depth_asc(filter_kind(s, |c: ChangeView| is_key_added(c)));
    let b = filter_kind(s, |c: ChangeView| is_key_modified(c));
    let cc = filter_kind(s, |c: ChangeView| is_value_added(c));
    let d = filter_kind(s, |c: ChangeView| is_value_modified(c));
    let e = filter_kind(s, |c: ChangeView| is_value_deleted(c));
    let f = sort_by_depth_desc(filter_kind(s, |c: ChangeView| is_key_deleted(c)));
    lemma_filter_kind_all(s, |c: ChangeView| is_key_added(c));
    lemma_sort_depth_all(
        filter_kind(s, |c: ChangeView| is_key_added(c)),
        |c: ChangeView| is_key_added(c),
        true,
    );
    lemma_filter_kind_all(s, |c: ChangeView| is_key_modified(c));
    lemma_filter_kind_all(s, |c: ChangeView| is_value_added(c));
    lemma_filter_kind_all(s, |c: ChangeView| is_value_modified(c));
    lemma_filter_kind_all(s, |c: ChangeView| is_value_deleted(c));
    lemma_filter_kind_all(s, |c: ChangeView| is_key_deleted(c));
    lemma_sort_depth_all(
        filter_kind(s, |c: ChangeView| is_key_deleted(c)),
        |c: ChangeView| is_key_deleted(c),
        false,
    );
    // every key addition of the order sits in the first segment
    if j >= a.len() {
        if j < a.len() + b.len() {
            assert(r[j] == b[j - a.len()]);
        } else if j < a.len() + b.len() + cc.len() {
            assert(r[j] == cc[j - a.len() - b.len()]);
        } else if j < a.len() + b.len() + cc.len() + d.len() {
            assert(r[j] == d[j - a.len() - b.len() - cc.len()]);
        } else if j < a.len() + b.len() + cc.len() + d.len() + e.len() {
            assert(r[j] == e[j - a.len() - b.len() - cc.len() - d.len()]);
        } else {
            assert(r[j] == f[j - a.len() - b.len() - cc.len() - d.len() - e.len()]);
        }
        assert(false);
    }
    // and every value addition sits after the first two segments
    if i < a.len() {
        assert(r[i] == a[i]);
        assert(false);
    }
    if i < a.len() + b.len() {
        assert(r[i] == b[i - a.len()]);
        assert(false);
    }
}



// ---------------------------------------------------------------------------
// Builder creation never fails: after a recursive create, the created path
// resolves.
// ---------------------------------------------------------------------------
proof fn lemma_fresh_chain_resolves(name: Seq<char>, rest: Seq<Seq<char>>, mark: bool)
    ensures
        KeyView::fresh_chain(name, rest, mark).path_exists(rest),
    decreases rest.len(),
{
    let c = KeyView::fresh_chain(name, rest, mark);
    if rest.len() > 0 {
        lemma_fresh_chain_resolves(rest[0], rest.skip(1), mark);
        let inner = KeyView::fresh_chain(rest[0], rest.skip(1), mark);
        assert(c.subkeys[0] == inner);
        assert(c.has_subkey(rest[0])) by {
            assert(fold_seq(c.subkeys[0].name) == fold_seq(rest[0]));
        }
        let j = c.subkey_index(rest[0]);
        assert(j == 0);
    }
}

proof fn lemma_insert_child_finds(s: Seq<KeyView>, c: KeyView, n: Seq<char>)
    requires
        fold_seq(c.name) == fold_seq(n),
        forall|i: int| 0 <= i < s.len() ==> fold_seq((#[trigger] s[i]).name) != fold_seq(n),
    ensures
        ({
            let r = crate::registry_key::insert_child(s, c);
            exists|p: int| 0 <= p < r.len() && #[trigger] r[p] == c
        }),
        forall|p: int|
            0 <= p < crate::registry_key::insert_child(s, c).len() && fold_seq(
                (#[trigger] crate::registry_key::insert_child(s, c)[p]).name,
            ) == fold_seq(n) ==> crate::registry_key::insert_child(s, c)[p] == c,
    decreases s.len(),
{
    let r = crate::registry_key::insert_child(s, c);
    if s.len() == 0 {
        assert(r[0] == c);
        assert forall|p: int|
            0 <= p < r.len() && fold_seq((#[trigger] r[p]).name) == fold_seq(n) implies r[p]
            == c by {
            assert(p == 0);
        }
    } else if fold_seq(c.name) == fold_seq(s[0].name) {
        assert(false);
    } else if lex_lt(fold_seq(c.name), fold_seq(s[0].name)) {
        assert(r[0] == c);
        assert forall|p: int|
            0 <= p < r.len() && fold_seq((#[trigger] r[p]).name) == fold_seq(n) implies r[p]
            == c by {
            if p > 0 {
                assert(r[p] == s[p - 1]);
            }
        }
    } else {
        assert(forall|i: int|
            0 <= i < s.skip(1).len() ==> #[trigger] s.skip(1)[i] == s[i + 1]);
        lemma_insert_child_finds(s.skip(1), c, n);
        let r2 = crate::registry_key::insert_child(s.skip(1), c);
        let p2 = choose|p: int| 0 <= p < r2.len() && #[trigger] r2[p] == c;
        assert(r[p2 + 1] == c);
        assert forall|p: int|
            0 <= p < r.len() && fold_seq((#[trigger] r[p]).name) == fold_seq(n) implies r[p]
            == c by {
            if p == 0 {
                assert(r[0] == s[0]);
            } else {
                assert(r[p] == r2[p - 1]);
            }
        }
    }
}

/// Recursive creation is total: the created path resolves afterwards, so a
/// builder's `open a key at a path` step cannot fail.
pub proof fn law_create_path_resolves(k: KeyView, segs: Seq<Seq<char>>, mark: bool)
    requires
        k.wf(),
    ensures
        k.create_path(segs, mark).path_exists(segs),
    decreases segs.len(),
{
    if segs.len() > 0 {
        let r = k.create_path(segs, mark);
        if k.has_subkey(segs[0]) {
            let i = k.subkey_index(segs[0]);
            law_create_path_resolves(k.subkeys[i], segs.skip(1), mark);
            let c2 = k.subkeys[i].create_path(segs.skip(1), mark);
            assert(c2.name == k.subkeys[i].name);
            assert(r.subkeys[i] == c2);
            assert(r.has_subkey(segs[0])) by {
                assert(fold_seq(r.subkeys[i].name) == fold_seq(segs[0]));
            }
            let j = r.subkey_index(segs[0]);
            assert(fold_seq(r.subkeys[j].name) == fold_seq(segs[0]));
            if i != j {
                assert(fold_seq(k.subkeys[j].name) == fold_seq(r.subkeys[j].name));
                assert(fold_seq(k.subkeys[i].name) == fold_seq(k.subkeys[j].name));
                lemma_subkey_index_unique(k, i, j);
            }
            assert(r.subkey_of(segs[0]) == c2);
        } else {
            let c = KeyView::fresh_chain(segs[0], segs.skip(1), mark);
            assert(c.name == segs[0]);
            assert forall|t: int|
                0 <= t < k.subkeys.len() implies fold_seq((#[trigger] k.subkeys[t]).name)
                != fold_seq(segs[0]) by {
                if fold_seq(k.subkeys[t].name) == fold_seq(segs[0]) {
                    assert(k.has_subkey(segs[0]));
                }
            }
            lemma_insert_child_finds(k.subkeys, c, segs[0]);
            let p = choose|p: int| 0 <= p < r.subkeys.len() && #[trigger] r.subkeys[p] == c;
            assert(r.has_subkey(segs[0])) by {
                assert(fold_seq(r.subkeys[p].name) == fold_seq(segs[0]));
            }
            let j = r.subkey_index(segs[0]);
            assert(fold_seq(r.subkeys[j].name) == fold_seq(segs[0]));
            assert(r.subkeys[j] == c);
            lemma_fresh_chain_resolves(segs[0], segs.skip(1), mark);
            assert(r.subkey_of(segs[0]) == c);
        }
    }
}

} // verus!
