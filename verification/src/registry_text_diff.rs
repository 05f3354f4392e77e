use vstd::prelude::*;
use crate::registry_comparator::{RegistryChange, ChangeView, PropView, KeyPropertyChange, DiffResult};
use crate::registry_value::{RegistryValue, RegistryValueData, ValueView, ValueDataView, REG_BINARY};
use crate::text::{lex_lt, lex_cmp, str_chars, chars_to_string, push_str_chars, push_chars,
    padded_radix_chars, radix_chars, u64_to_radix, u64_to_radix_padded, trim_spec, trim_chars,
    starts_with, starts_with_lit, skip_chars, sub_chars, is_radix_seq, radix_val,
    parse_radix_u64};

verus! {

broadcast use vstd::std_specs::vec::group_vec_axioms;

// ---------------------------------------------------------------------------
// Escaping in the diff format: like the registry writer's, but NUL has no
// spelling here.
// ---------------------------------------------------------------------------
pub open spec fn diff_escape_char(c: char) -> Seq<char> {
    if c == '\\' {
        seq!['\\', '\\']
    } else if c == '"' {
        seq!['\\', '"']
    } else if c == '\n' {
        seq!['\\', 'n']
    } else if c == '\r' {
        seq!['\\', 'r']
    } else if c == '\t' {
        seq!['\\', 't']
    } else {
        seq![c]
    }
}

pub open spec fn diff_escape(s: Seq<char>) -> Seq<char>
    decreases s.len(),
{
    if s.len() == 0 {
        Seq::empty()
    } else {
        diff_escape_char(s[0]) + diff_escape(s.skip(1))
    }
}

fn push_diff_escaped(out: &mut Vec<char>, v: &Vec<char>)
    ensures
        final (out)@ == old(out)@ + diff_escape(v@),
{
    let mut i: usize = 0;
    proof {
        assert(v@.skip(0) =~= v@);
    }
    while i < v.len()
        invariant
            i <= v@.len(),
            old(out)@ + diff_escape(v@) =~= out@ + diff_escape(v@.skip(i as int)),
        decreases v@.len() - i,
    {
        proof {
            assert(v@.skip(i as int)[0] == v@[i as int]);
            assert(v@.skip(i as int).skip(1) =~= v@.skip(i as int + 1));
        }
        let c = v[i];
        if c == '\\' {
            out.push('\\');
            out.push('\\');
        } else if c == '"' {
            out.push('\\');
            out.push('"');
        } else if c == '\n' {
            out.push('\\');
            out.push('n');
        } else if c == '\r' {
            out.push('\\');
            out.push('r');
        } else if c == '\t' {
            out.push('\\');
            out.push('t');
        } else {
            out.push(c);
        }
        i += 1;
    }
    proof {
        assert(v@.skip(v@.len() as int) =~= Seq::<char>::empty());
        assert(out@ =~= old(out)@ + diff_escape(v@));
    }
}

// ---------------------------------------------------------------------------
// Paths: the anchor of a change and the leaf name of a key path.
// ---------------------------------------------------------------------------

/// Index of the last backslash.
pub open spec fn last_bs(s: Seq<char>) -> Option<int>
    decreases s.len(),
{
    if s.len() == 0 {
        None
    } else if s.last() == '\\' {
        Some(s.len() - 1)
    } else {
        last_bs(s.drop_last())
    }
}

pub proof fn lemma_last_bs(s: Seq<char>)
    ensures
        match last_bs(s) {
            Some(i) => 0 <= i < s.len() && s[i] == '\\' && (forall|t: int|
                i < t < s.len() ==> s[t] != '\\'),
            None => forall|t: int| 0 <= t < s.len() ==> s[t] != '\\',
        },
    decreases s.len(),
{
    if s.len() > 0 && s.last() != '\\' {
        lemma_last_bs(s.drop_last());
        assert(forall|t: int| 0 <= t < s.len() - 1 ==> s.drop_last()[t] == s[t]);
    }
}

pub open spec fn parent_path(s: Seq<char>) -> Seq<char> {
    match last_bs(s) {
        Some(i) => s.take(i),
        None => Seq::empty(),
    }
}

pub open spec fn leaf_name(s: Seq<char>) -> Seq<char> {
    match last_bs(s) {
        Some(i) => s.skip(i + 1),
        None => s,
    }
}

fn split_leaf(v: &Vec<char>) -> (r: (Vec<char>, Vec<char>))
    ensures
        r.0@ == parent_path(v@),
        r.1@ == leaf_name(v@),
{
    let mut i: usize = v.len();
    while i > 0 && v[i - 1] != '\\'
        invariant
            i <= v@.len(),
            forall|t: int| i <= t < v@.len() ==> v@[t] != '\\',
        decreases i,
    {
        i -= 1;
    }
    proof {
        lemma_last_bs(v@);
        if i > 0 {
            match last_bs(v@) {
                Some(k) => {
                    if k < i - 1 {
                        assert(v@[i - 1] != '\\');
                    }
                    if k > i - 1 {
                        assert(v@[k] != '\\');
                    }
                    assert(k == i - 1);
                },
                None => {
                    assert(v@[i - 1] != '\\');
                },
            }
        }
    }
    if i == 0 {
        let empty: Vec<char> = Vec::new();
        let leaf = sub_chars(v, 0, v.len());
        proof {
            assert(empty@ =~= parent_path(v@));
            assert(leaf@ =~= leaf_name(v@));
        }
        (empty, leaf)
    } else {
        let parent = sub_chars(v, 0, i - 1);
        let leaf = sub_chars(v, i, v.len());
        proof {
            assert(parent@ =~= parent_path(v@));
            assert(leaf@ =~= leaf_name(v@));
        }
        (parent, leaf)
    }
}

/// The path a change is grouped under: the parent for key additions and
/// deletions, the containing key for everything else.
pub open spec fn anchor_of(c: ChangeView) -> Seq<char> {
    match c {
        ChangeView::KeyAdded(p) => parent_path(p),
        ChangeView::KeyDeleted(p) => parent_path(p),
        ChangeView::KeyModified(p, _) => p,
        ChangeView::ValueAdded(p, _, _) => p,
        ChangeView::ValueDeleted(p, _, _) => p,
        ChangeView::ValueModified(p, _, _, _) => p,
    }
}

/// Insert an anchor into a sorted run, keeping it duplicate-free.
pub open spec fn insert_anchor(s: Seq<Seq<char>>, a: Seq<char>) -> Seq<Seq<char>>
    decreases s.len(),
{
    if s.len() == 0 {
        seq![a]
    } else if a == s[0] {
        s
    } else if lex_lt(a, s[0]) {
        seq![a] + s
    } else {
        seq![s[0]] + insert_anchor(s.skip(1), a)
    }
}

/// The sorted, duplicate-free anchors of a change list.
pub open spec fn anchors_list(cs: Seq<ChangeView>) -> Seq<Seq<char>>
    decreases cs.len(),
{
    if cs.len() == 0 {
        Seq::empty()
    } else {
        insert_anchor(anchors_list(cs.drop_last()), anchor_of(cs.last()))
    }
}

proof fn lemma_insert_anchor_positional(s: Seq<Seq<char>>, a: Seq<char>, pos: int)
    requires
        0 <= pos <= s.len(),
        forall|j: int| 0 <= j < pos ==> lex_lt(#[trigger] s[j], a),
        pos < s.len() ==> lex_lt(a, s[pos]),
    ensures
        insert_anchor(s, a) == s.insert(pos, a),
    decreases pos,
{
    if pos == 0 {
        if s.len() > 0 {
            crate::text::lemma_lex_trichotomy(a, s[0]);
        }
        assert(insert_anchor(s, a) =~= s.insert(0, a));
    } else {
        crate::text::lemma_lex_trichotomy(a, s[0]);
        lemma_insert_anchor_positional(s.skip(1), a, pos - 1);
        assert(insert_anchor(s, a) =~= seq![s[0]] + insert_anchor(s.skip(1), a));
        assert(seq![s[0]] + s.skip(1).insert(pos - 1, a) =~= s.insert(pos, a));
    }
}

proof fn lemma_insert_anchor_present(s: Seq<Seq<char>>, a: Seq<char>, pos: int)
    requires
        0 <= pos < s.len(),
        s[pos] == a,
        forall|j: int| 0 <= j < pos ==> lex_lt(#[trigger] s[j], a),
    ensures
        insert_anchor(s, a) == s,
    decreases pos,
{
    if pos == 0 {
        assert(insert_anchor(s, a) == s);
    } else {
        crate::text::lemma_lex_trichotomy(a, s[0]);
        lemma_insert_anchor_present(s.skip(1), a, pos - 1);
        assert(insert_anchor(s, a) =~= seq![s[0]] + insert_anchor(s.skip(1), a));
        assert(seq![s[0]] + s.skip(1) =~= s);
    }
}


// ---------------------------------------------------------------------------
// Rendering the diff.
// ---------------------------------------------------------------------------
pub open spec fn bool_chars(b: bool) -> Seq<char> {
    if b {
        "true"@
    } else {
        "false"@
    }
}

pub open spec fn fmt_prop_value(p: Option<Seq<char>>) -> Seq<char> {
    match p {
        Some(s) => seq!['"'] + diff_escape(s) + seq!['"'],
        None => "null"@,
    }
}

/// Bytes joined by commas, two lowercase digits each.
pub open spec fn bytes_join(b: Seq<u8>) -> Seq<char>
    decreases b.len(),
{
    if b.len() == 0 {
        Seq::empty()
    } else if b.len() == 1 {
        padded_radix_chars(b[0] as nat, 16, 2)
    } else {
        padded_radix_chars(b[0] as nat, 16, 2) + seq![','] + bytes_join(b.skip(1))
    }
}

/// Quoted escaped items joined by commas.
pub open spec fn multi_join(items: Seq<Seq<char>>) -> Seq<char>
    decreases items.len(),
{
    if items.len() == 0 {
        Seq::empty()
    } else if items.len() == 1 {
        seq!['"'] + diff_escape(items[0]) + seq!['"']
    } else {
        seq!['"'] + diff_escape(items[0]) + seq!['"', ','] + multi_join(items.skip(1))
    }
}

/// The diff spelling of a payload.
pub open spec fn fmt_data(d: ValueDataView) -> Seq<char> {
    match d {
        ValueDataView::VString(s) => "string:"@ + seq!['"'] + diff_escape(s) + seq!['"'],
        ValueDataView::VExpand(s) => "expand_string:"@ + seq!['"'] + diff_escape(s) + seq!['"'],
        ValueDataView::VMulti(items) => "multi_string:["@ + multi_join(items) + seq![']'],
        ValueDataView::VDword(v) => "dword:"@ + padded_radix_chars(v as nat, 16, 8),
        ValueDataView::VQword(v) => "qword:"@ + padded_radix_chars(v as nat, 16, 16),
        ValueDataView::VBinary(b, ty) => (if ty == REG_BINARY {
            "hex:"@
        } else {
            "hex("@ + radix_chars(ty as nat, 16) + seq![')', ':']
        }) + bytes_join(b),
    }
}

pub open spec fn render_prop(p: PropView) -> Seq<char> {
    match p {
        PropView::ClassNameChange(old, new) => "~className:"@ + fmt_prop_value(old) + "->"@
            + fmt_prop_value(new) + seq!['\n'],
        PropView::SymlinkChange(old, new) => "~isSymlink:"@ + bool_chars(old) + "->"@ + bool_chars(
            new,
        ) + seq!['\n'],
        PropView::VolatileChange(old, new) => "~isVolatile:"@ + bool_chars(old) + "->"@
            + bool_chars(new) + seq!['\n'],
    }
}

pub open spec fn render_props(ps: Seq<PropView>) -> Seq<char>
    decreases ps.len(),
{
    if ps.len() == 0 {
        Seq::empty()
    } else {
        render_prop(ps[0]) + render_props(ps.skip(1))
    }
}

pub open spec fn render_change(c: ChangeView) -> Seq<char> {
    match c {
        ChangeView::KeyAdded(p) => "+key:"@ + leaf_name(p) + seq!['\n'],
        ChangeView::KeyDeleted(p) => "-key:"@ + leaf_name(p) + seq!['\n'],
        ChangeView::KeyModified(_, props) => render_props(props),
        ChangeView::ValueAdded(_, n, v) => seq!['+', '"'] + diff_escape(n) + seq!['"', '=']
            + fmt_data(v.data) + seq!['\n'],
        ChangeView::ValueDeleted(_, n, v) => seq!['-', '"'] + diff_escape(n) + seq!['"', '=']
            + fmt_data(v.data) + seq!['\n'],
        ChangeView::ValueModified(_, n, a, b) => seq!['~', '"'] + diff_escape(n) + seq!['"', '=']
            + fmt_data(a.data) + "->"@ + fmt_data(b.data) + seq!['\n'],
    }
}

/// The lines of one group: the changes anchored at `p`, in input order.
pub open spec fn group_lines(cs: Seq<ChangeView>, p: Seq<char>) -> Seq<char>
    decreases cs.len(),
{
    if cs.len() == 0 {
        Seq::empty()
    } else {
        (if anchor_of(cs[0]) == p {
            render_change(cs[0])
        } else {
            Seq::empty()
        }) + group_lines(cs.skip(1), p)
    }
}

pub open spec fn group_block(cs: Seq<ChangeView>, p: Seq<char>) -> Seq<char> {
    (if p.len() == 0 {
        "[ROOT]"@
    } else {
        seq!['['] + p + seq![']']
    }) + seq!['\n'] + group_lines(cs, p) + seq!['\n']
}

pub open spec fn render_groups(cs: Seq<ChangeView>, anchors: Seq<Seq<char>>) -> Seq<char>
    decreases anchors.len(),
{
    if anchors.len() == 0 {
        Seq::empty()
    } else {
        group_block(cs, anchors[0]) + render_groups(cs, anchors.skip(1))
    }
}

pub open spec fn opt_str_view(s: Option<&str>) -> Option<Seq<char>> {
    match s {
        Some(x) => Some(x@),
        None => None,
    }
}

/// The whole textual diff for a change list, with the given generator
/// timestamp.
pub open spec fn export_spec(
    cs: Seq<ChangeView>,
    from: Option<Seq<char>>,
    to: Option<Seq<char>>,
    ts: Seq<char>,
) -> Seq<char> {
    "# Registry Patch File"@ + seq!['\n'] + "# Generated: "@ + ts + seq!['\n'] + (match (from, to) {
        (Some(f), Some(t)) => "# FROM: "@ + f + seq!['\n'] + "# TO: "@ + t + seq!['\n'],
        _ => Seq::empty(),
    }) + seq!['\n'] + (if cs.len() == 0 {
        "# No changes"@ + seq!['\n']
    } else {
        render_groups(cs, anchors_list(cs))
    })
}

/// Relies on chrono's `Local::now` and `DateTime::format` with the pattern
/// `%Y-%m-%d %H:%M:%S`: the rendering is made of digits, dashes, colons and
/// spaces, never a line break.
#[verifier::external_body]
fn now_local_timestamp() -> (r: String)
    ensures
        forall|i: int| 0 <= i < r@.len() ==> r@[i] != '\n',
{
    chrono::Local::now().format("%Y-%m-%d %H:%M:%S").to_string()
}

fn anchor_chars(c: &RegistryChange) -> (r: Vec<char>)
    ensures
        r@ == anchor_of(c@),
{
    match c {
        RegistryChange::KeyAdded(p) => {
            let pc = str_chars(p.as_str());
            let (parent, _leaf) = split_leaf(&pc);
            parent
        },
        RegistryChange::KeyDeleted(p) => {
            let pc = str_chars(p.as_str());
            let (parent, _leaf) = split_leaf(&pc);
            parent
        },
        RegistryChange::KeyModified(p, _) => str_chars(p.as_str()),
        RegistryChange::ValueAdded(p, _, _) => str_chars(p.as_str()),
        RegistryChange::ValueDeleted(p, _, _) => str_chars(p.as_str()),
        RegistryChange::ValueModified(p, _, _, _) => str_chars(p.as_str()),
    }
}

fn push_fmt_data(out: &mut Vec<char>, d: &RegistryValueData)
    ensures
        final (out)@ == old(out)@ + fmt_data(d@),
{
    match d {
        RegistryValueData::String(sv) => {
            push_str_chars(out, "string:");
            out.push('"');
            let sc = str_chars(sv.as_str());
            push_diff_escaped(out, &sc);
            out.push('"');
        },
        RegistryValueData::ExpandString(sv) => {
            push_str_chars(out, "expand_string:");
            out.push('"');
            let sc = str_chars(sv.as_str());
            push_diff_escaped(out, &sc);
            out.push('"');
        },
        RegistryValueData::MultiString(items) => {
            push_str_chars(out, "multi_string:[");
            let ghost iv = Seq::new(items@.len(), |k: int| items@[k]@);
            let ghost base = out@;
            let mut i: usize = 0;
            proof {
                assert(iv.skip(0) =~= iv);
            }
            while i < items.len()
                invariant
                    i <= items@.len(),
                    iv == Seq::new(items@.len(), |k: int| items@[k]@),
                    iv.len() == items@.len(),
                    base + multi_join(iv) =~= out@ + multi_join(iv.skip(i as int)),
                decreases items@.len() - i,
            {
                proof {
                    assert(iv.skip(i as int)[0] == iv[i as int]);
                    assert(iv.skip(i as int).skip(1) =~= iv.skip(i as int + 1));
                    assert(items@[i as int]@ == iv[i as int]);
                }
                out.push('"');
                let sc = str_chars(items[i].as_str());
                push_diff_escaped(out, &sc);
                out.push('"');
                if i + 1 < items.len() {
                    out.push(',');
                } else {
                    proof {
                        assert(iv.skip(i as int).len() == 1);
                        assert(multi_join(iv.skip(i as int + 1)) =~= Seq::<char>::empty());
                    }
                }
                i += 1;
            }
            proof {
                assert(iv.skip(iv.len() as int) =~= Seq::<Seq<char>>::empty());
                assert(out@ =~= base + multi_join(iv));
            }
            out.push(']');
        },
        RegistryValueData::Dword(v) => {
            push_str_chars(out, "dword:");
            let h = u64_to_radix_padded(*v as u64, 16, 8);
            push_chars(out, &h);
        },
        RegistryValueData::Qword(v) => {
            push_str_chars(out, "qword:");
            let h = u64_to_radix_padded(*v, 16, 16);
            push_chars(out, &h);
        },
        RegistryValueData::Binary(b, ty) => {
            if *ty == 3 {
                push_str_chars(out, "hex:");
            } else {
                push_str_chars(out, "hex(");
                let h = u64_to_radix(*ty as u64, 16);
                push_chars(out, &h);
                out.push(')');
                out.push(':');
            }
            let ghost bv = b@;
            let ghost base = out@;
            let mut i: usize = 0;
            proof {
                assert(bv.skip(0) =~= bv);
            }
            while i < b.len()
                invariant
                    i <= b@.len(),
                    bv == b@,
                    base + bytes_join(bv) =~= out@ + bytes_join(bv.skip(i as int)),
                decreases b@.len() - i,
            {
                proof {
                    assert(bv.skip(i as int)[0] == bv[i as int]);
                    assert(bv.skip(i as int).skip(1) =~= bv.skip(i as int + 1));
                }
                let h = u64_to_radix_padded(b[i] as u64, 16, 2);
                push_chars(out, &h);
                if i + 1 < b.len() {
                    out.push(',');
                } else {
                    proof {
                        assert(bv.skip(i as int).len() == 1);
                        assert(bytes_join(bv.skip(i as int + 1)) =~= Seq::<char>::empty());
                    }
                }
                i += 1;
            }
            proof {
                assert(bv.skip(bv.len() as int) =~= Seq::<u8>::empty());
                assert(out@ =~= base + bytes_join(bv));
            }
        },
    }
}

fn push_prop_value(out: &mut Vec<char>, p: &Option<String>)
    ensures
        final (out)@ == old(out)@ + fmt_prop_value(crate::registry_comparator::opt_view(*p)),
{
    match p {
        Some(sv) => {
            out.push('"');
            let sc = str_chars(sv.as_str());
            push_diff_escaped(out, &sc);
            out.push('"');
        },
        None => {
            push_str_chars(out, "null");
        },
    }
}

fn push_prop(out: &mut Vec<char>, p: &KeyPropertyChange)
    ensures
        final (out)@ == old(out)@ + render_prop(p@),
{
    match p {
        KeyPropertyChange::ClassNameChange(old_c, new_c) => {
            push_str_chars(out, "~className:");
            push_prop_value(out, old_c);
            push_str_chars(out, "->");
            push_prop_value(out, new_c);
            out.push('\n');
        },
        KeyPropertyChange::SymlinkChange(old_b, new_b) => {
            push_str_chars(out, "~isSymlink:");
            push_str_chars(out, if *old_b {
                "true"
            } else {
                "false"
            });
            push_str_chars(out, "->");
            push_str_chars(out, if *new_b {
                "true"
            } else {
                "false"
            });
            out.push('\n');
        },
        KeyPropertyChange::VolatileChange(old_b, new_b) => {
            push_str_chars(out, "~isVolatile:");
            push_str_chars(out, if *old_b {
                "true"
            } else {
                "false"
            });
            push_str_chars(out, "->");
            push_str_chars(out, if *new_b {
                "true"
            } else {
                "false"
            });
            out.push('\n');
        },
    }
}

#[verifier::rlimit(100)]
fn push_change(out: &mut Vec<char>, c: &RegistryChange)
    ensures
        final (out)@ == old(out)@ + render_change(c@),
{
    match c {
        RegistryChange::KeyAdded(p) => {
            push_str_chars(out, "+key:");
            let pc = str_chars(p.as_str());
            let (_parent, leaf) = split_leaf(&pc);
            push_chars(out, &leaf);
            out.push('\n');
        },
        RegistryChange::KeyDeleted(p) => {
            push_str_chars(out, "-key:");
            let pc = str_chars(p.as_str());
            let (_parent, leaf) = split_leaf(&pc);
            push_chars(out, &leaf);
            out.push('\n');
        },
        RegistryChange::KeyModified(_, props) => {
            let ghost pv = Seq::new(props@.len(), |k: int| props@[k]@);
            let ghost base = out@;
            let mut i: usize = 0;
            proof {
                assert(pv.skip(0) =~= pv);
            }
            while i < props.len()
                invariant
                    i <= props@.len(),
                    pv == Seq::new(props@.len(), |k: int| props@[k]@),
                    pv.len() == props@.len(),
                    base + render_props(pv) =~= out@ + render_props(pv.skip(i as int)),
                decreases props@.len() - i,
            {
                proof {
                    assert(pv.skip(i as int)[0] == pv[i as int]);
                    assert(pv.skip(i as int).skip(1) =~= pv.skip(i as int + 1));
                    assert(props@[i as int]@ == pv[i as int]);
                }
                push_prop(out, &props[i]);
                i += 1;
            }
            proof {
                assert(pv.skip(pv.len() as int) =~= Seq::<PropView>::empty());
                assert(out@ =~= base + render_props(pv));
            }
        },
        RegistryChange::ValueAdded(_, n, v) => {
            out.push('+');
            out.push('"');
            let nc = str_chars(n.as_str());
            push_diff_escaped(out, &nc);
            out.push('"');
            out.push('=');
            push_fmt_data(out, &v.data);
            out.push('\n');
        },
        RegistryChange::ValueDeleted(_, n, v) => {
            out.push('-');
            out.push('"');
            let nc = str_chars(n.as_str());
            push_diff_escaped(out, &nc);
            out.push('"');
            out.push('=');
            push_fmt_data(out, &v.data);
            out.push('\n');
        },
        RegistryChange::ValueModified(_, n, a, b) => {
            out.push('~');
            out.push('"');
            let nc = str_chars(n.as_str());
            push_diff_escaped(out, &nc);
            out.push('"');
            out.push('=');
            push_fmt_data(out, &a.data);
            push_str_chars(out, "->");
            push_fmt_data(out, &b.data);
            out.push('\n');
        },
    }
}

pub struct TextDiffExporter;

impl TextDiffExporter {
    /// Render a change list as the textual diff format, grouped by anchor
    /// path in sorted order, with optional source and target annotations.
    /// The generator timestamp in the header is a clock reading; everything
    /// else is pinned exactly.
    #[verifier::rlimit(100)]
    pub fn export(&self, diff: &DiffResult, from_file: Option<&str>, to_file: Option<&str>) -> (r:
        String)
        ensures
            exists|ts: Seq<char>|
                r@ == export_spec(
                    diff.changes.deep_view(),
                    opt_str_view(from_file),
                    opt_str_view(to_file),
                    ts,
                ) && (forall|i: int| 0 <= i < ts.len() ==> ts[i] != '\n'),
    {
        let ghost cv = diff.changes.deep_view();
        let mut out: Vec<char> = Vec::new();
        push_str_chars(&mut out, "# Registry Patch File");
        out.push('\n');
        push_str_chars(&mut out, "# Generated: ");
        let stamp = now_local_timestamp();
        let ghost tsv = stamp@;
        push_str_chars(&mut out, stamp.as_str());
        out.push('\n');
        match (from_file, to_file) {
            (Option::Some(f), Option::Some(t)) => {
                push_str_chars(&mut out, "# FROM: ");
                push_str_chars(&mut out, f);
                out.push('\n');
                push_str_chars(&mut out, "# TO: ");
                push_str_chars(&mut out, t);
                out.push('\n');
            },
            _ => {
            },
        }
        out.push('\n');
        if diff.changes.len() == 0 {
            push_str_chars(&mut out, "# No changes");
            out.push('\n');
            proof {
                assert(out@ =~= export_spec(
                    cv,
                    opt_str_view(from_file),
                    opt_str_view(to_file),
                    tsv,
                ));
            }
            return chars_to_string(&out);
        }
        // collect the sorted, duplicate-free anchors
        let mut anchors: Vec<Vec<char>> = Vec::new();
        let mut i: usize = 0;
        proof {
            assert(cv.take(0) =~= Seq::<ChangeView>::empty());
            assert(crate::registry_key::segs_view(anchors@) =~= anchors_list(cv.take(0)));
        }
        while i < diff.changes.len()
            invariant
                i <= diff.changes@.len(),
                cv == diff.changes.deep_view(),
                cv.len() == diff.changes@.len(),
                crate::registry_key::segs_view(anchors@) == anchors_list(cv.take(i as int)),
            decreases diff.changes@.len() - i,
        {
            proof {
                assert(diff.changes@[i as int]@ == cv[i as int]);
                assert(cv.take(i as int + 1).drop_last() =~= cv.take(i as int));
                assert(cv.take(i as int + 1).last() == cv[i as int]);
            }
            let a = anchor_chars(&diff.changes[i]);
            let mut pos: usize = 0;
            let mut found = false;
            let mut stop = false;
            while pos < anchors.len() && !found && !stop
                invariant
                    pos <= anchors@.len(),
                    i < diff.changes@.len(),
                    cv == diff.changes.deep_view(),
                    cv.len() == diff.changes@.len(),
                    a@ == anchor_of(cv[i as int]),
                    found ==> pos < anchors@.len() && (#[trigger] anchors@[pos as int])@ == a@,
                    stop ==> pos < anchors@.len() && lex_lt(a@, anchors@[pos as int]@),
                    forall|j: int| 0 <= j < pos ==> lex_lt((#[trigger] anchors@[j])@, a@),
                decreases anchors@.len() - pos + (if found || stop {
                    0int
                } else {
                    1int
                }),
            {
                let c = lex_cmp(&anchors[pos], &a);
                if c == 0 {
                    found = true;
                } else if c > 0 {
                    proof {
                        crate::text::lemma_lex_trichotomy(anchors@[pos as int]@, a@);
                    }
                    stop = true;
                } else {
                    pos += 1;
                }
            }
            let ghost av = crate::registry_key::segs_view(anchors@);
            if found {
                proof {
                    lemma_insert_anchor_present(av, a@, pos as int);
                    assert(crate::registry_key::segs_view(anchors@) =~= insert_anchor(
                        av,
                        anchor_of(cv[i as int]),
                    ));
                }
            } else {
                anchors.insert(pos, a);
                proof {
                    lemma_insert_anchor_positional(av, anchor_of(cv[i as int]), pos as int);
                    assert(crate::registry_key::segs_view(anchors@) =~= av.insert(
                        pos as int,
                        anchor_of(cv[i as int]),
                    ));
                }
            }
            i += 1;
        }
        proof {
            assert(cv.take(cv.len() as int) =~= cv);
        }
        // emit each group
        let ghost av = crate::registry_key::segs_view(anchors@);
        let ghost head = out@;
        let mut g: usize = 0;
        proof {
            assert(av.skip(0) =~= av);
        }
        while g < anchors.len()
            invariant
                g <= anchors@.len(),
                av == crate::registry_key::segs_view(anchors@),
                av.len() == anchors@.len(),
                cv == diff.changes.deep_view(),
                cv.len() == diff.changes@.len(),
                head + render_groups(cv, av) =~= out@ + render_groups(cv, av.skip(g as int)),
            decreases anchors@.len() - g,
        {
            proof {
                assert(av.skip(g as int)[0] == av[g as int]);
                assert(av.skip(g as int).skip(1) =~= av.skip(g as int + 1));
                assert(anchors@[g as int]@ == av[g as int]);
            }
            let p = &anchors[g];
            if p.len() == 0 {
                push_str_chars(&mut out, "[ROOT]");
            } else {
                out.push('[');
                push_chars(&mut out, p);
                out.push(']');
            }
            out.push('\n');
            let ghost gbase = out@;
            let mut k: usize = 0;
            proof {
                assert(cv.skip(0) =~= cv);
            }
            while k < diff.changes.len()
                invariant
                    k <= diff.changes@.len(),
                    cv == diff.changes.deep_view(),
                    cv.len() == diff.changes@.len(),
                    av == crate::registry_key::segs_view(anchors@),
                    g < anchors@.len(),
                    anchors@[g as int]@ == av[g as int],
                    gbase + group_lines(cv, av[g as int]) =~= out@ + group_lines(
                        cv.skip(k as int),
                        av[g as int],
                    ),
                decreases diff.changes@.len() - k,
            {
                proof {
                    assert(cv.skip(k as int)[0] == cv[k as int]);
                    assert(cv.skip(k as int).skip(1) =~= cv.skip(k as int + 1));
                    assert(diff.changes@[k as int]@ == cv[k as int]);
                }
                let a2 = anchor_chars(&diff.changes[k]);
                if crate::text::chars_eq(&a2, &anchors[g]) {
                    push_change(&mut out, &diff.changes[k]);
                }
                k += 1;
            }
            proof {
                assert(cv.skip(cv.len() as int) =~= Seq::<ChangeView>::empty());
                assert(out@ =~= gbase + group_lines(cv, av[g as int]));
            }
            out.push('\n');
            proof {
                assert(head + render_groups(cv, av) =~= out@ + render_groups(
                    cv,
                    av.skip(g as int + 1),
                ));
            }
            g += 1;
        }
        proof {
            assert(av.skip(av.len() as int) =~= Seq::<Seq<char>>::empty());
            assert(out@ =~= head + render_groups(cv, av));
            assert(out@ =~= export_spec(cv, opt_str_view(from_file), opt_str_view(to_file), tsv));
        }
        chars_to_string(&out)
    }
}


// ---------------------------------------------------------------------------
// Parsing the diff back into a change list.
// ---------------------------------------------------------------------------

/// First position of the two-character arrow `->`.
pub open spec fn find_arrow(s: Seq<char>) -> Option<int>
    decreases s.len(),
{
    if s.len() < 2 {
        None
    } else if s[0] == '-' && s[1] == '>' {
        Some(0)
    } else {
        match find_arrow(s.skip(1)) {
            Some(i) => Some(i + 1),
            None => None,
        }
    }
}

pub proof fn lemma_find_arrow(s: Seq<char>)
    ensures
        match find_arrow(s) {
            Some(i) => 0 <= i && i + 1 < s.len() && s[i] == '-' && s[i + 1] == '>',
            None => true,
        },
    decreases s.len(),
{
    if s.len() >= 2 && !(s[0] == '-' && s[1] == '>') {
        lemma_find_arrow(s.skip(1));
        match find_arrow(s.skip(1)) {
            Some(i) => {
                assert(s.skip(1)[i] == s[i + 1]);
                assert(s.skip(1)[i + 1] == s[i + 2]);
            },
            None => {
            },
        }
    }
}

fn find_arrow_exec(v: &Vec<char>) -> (r: Option<usize>)
    ensures
        match r {
            Some(i) => find_arrow(v@) == Some(i as int),
            None => find_arrow(v@) is None,
        },
{
    let n = v.len();
    if n < 2 {
        return None;
    }
    let mut i: usize = 0;
    proof {
        assert(v@.skip(0) =~= v@);
    }
    while i < n - 1
        invariant
            n == v@.len(),
            n >= 2,
            i <= n - 1,
            find_arrow(v@) == (match find_arrow(v@.skip(i as int)) {
                Some(k) => Some(k + i),
                None => None::<int>,
            }),
        decreases n - i,
    {
        proof {
            assert(v@.skip(i as int)[0] == v@[i as int]);
            assert(v@.skip(i as int)[1] == v@[i as int + 1]);
            assert(v@.skip(i as int).skip(1) =~= v@.skip(i as int + 1));
        }
        if v[i] == '-' && v[i + 1] == '>' {
            return Some(i);
        }
        i += 1;
    }
    proof {
        assert(v@.skip(i as int).len() < 2);
    }
    None
}

/// A property value in a diff line: `null` or a quoted string (quotes
/// removed, content kept as it stands).
pub open spec fn spec_parse_prop_value(t: Seq<char>) -> Option<Seq<char>> {
    let tt = trim_spec(t);
    if tt == "null"@ {
        None
    } else {
        Some(crate::registry_parser::trim_quotes(tt))
    }
}

fn parse_prop_value(v: &Vec<char>) -> (r: Option<String>)
    ensures
        crate::registry_comparator::opt_view(r) == spec_parse_prop_value(v@),
{
    let tt = trim_chars(v);
    let nl = str_chars("null");
    if crate::text::chars_eq(&tt, &nl) {
        None
    } else {
        let q = crate::registry_parser::trim_quotes_pub(tt);
        Some(chars_to_string(&q))
    }
}

/// The diff spelling of hex bytes: empty means no bytes; otherwise every
/// comma-separated item must be a byte.
pub open spec fn spec_parse_hex_bytes_diff(s: Seq<char>) -> Result<Seq<u8>, Seq<char>>
    decreases s.len(),
    via spec_parse_hex_bytes_diff_decreases
{
    if trim_spec(s).len() == 0 {
        Ok(Seq::empty())
    } else {
        let j = crate::registry_parser::comma_len(s);
        let part = trim_spec(s.take(j));
        let restres: Result<Seq<u8>, Seq<char>> = if j >= s.len() {
            Ok(Seq::empty())
        } else {
            spec_parse_hex_bytes_diff_tail(s.skip(j + 1))
        };
        if is_radix_seq(part, 16) && radix_val(part, 16) <= 255 {
            match restres {
                Ok(bs) => Ok(seq![radix_val(part, 16) as u8] + bs),
                Err(e) => Err(e),
            }
        } else {
            Err("invalid hex byte"@)
        }
    }
}

/// After the first comma every item must be a byte, even an empty one fails.
pub open spec fn spec_parse_hex_bytes_diff_tail(s: Seq<char>) -> Result<Seq<u8>, Seq<char>>
    decreases s.len(),
    via spec_parse_hex_bytes_diff_tail_decreases
{
    let j = crate::registry_parser::comma_len(s);
    let part = trim_spec(s.take(j));
    let restres: Result<Seq<u8>, Seq<char>> = if j >= s.len() {
        Ok(Seq::empty())
    } else {
        spec_parse_hex_bytes_diff_tail(s.skip(j + 1))
    };
    if is_radix_seq(part, 16) && radix_val(part, 16) <= 255 {
        match restres {
            Ok(bs) => Ok(seq![radix_val(part, 16) as u8] + bs),
            Err(e) => Err(e),
        }
    } else {
        Err("invalid hex byte"@)
    }
}

#[via_fn]
proof fn spec_parse_hex_bytes_diff_decreases(s: Seq<char>) {
    crate::registry_parser::lemma_comma_len(s);
}

#[via_fn]
proof fn spec_parse_hex_bytes_diff_tail_decreases(s: Seq<char>) {
    crate::registry_parser::lemma_comma_len(s);
}

fn parse_hex_bytes_diff(v: &Vec<char>) -> (r: Result<Vec<u8>, &'static str>)
    ensures
        match r {
            Ok(bs) => spec_parse_hex_bytes_diff(v@) == Ok::<Seq<u8>, Seq<char>>(bs@),
            Err(m) => spec_parse_hex_bytes_diff(v@) == Err::<Seq<u8>, Seq<char>>(m@),
        },
{
    let t = trim_chars(v);
    if t.len() == 0 {
        let empty: Vec<u8> = Vec::new();
        proof {
            assert(empty@ =~= Seq::<u8>::empty());
        }
        return Ok(empty);
    }
    proof {
        assert(v@.skip(0) =~= v@);
        assert(spec_parse_hex_bytes_diff(v@) == spec_parse_hex_bytes_diff_tail(v@));
    }
    match parse_hex_bytes_diff_tail(v, 0) {
        Ok(bs) => Ok(bs),
        Err(m) => Err(m),
    }
}

fn parse_hex_bytes_diff_tail(v: &Vec<char>, from: usize) -> (r: Result<Vec<u8>, &'static str>)
    requires
        from <= v@.len(),
    ensures
        match r {
            Ok(bs) => spec_parse_hex_bytes_diff_tail(v@.skip(from as int)) == Ok::<
                Seq<u8>,
                Seq<char>,
            >(bs@),
            Err(m) => spec_parse_hex_bytes_diff_tail(v@.skip(from as int)) == Err::<
                Seq<u8>,
                Seq<char>,
            >(m@),
        },
    decreases v@.len() - from,
{
    let ghost rest = v@.skip(from as int);
    let mut j: usize = from;
    while j < v.len() && v[j] != ','
        invariant
            from <= j <= v@.len(),
            forall|t: int| from <= t < j ==> v@[t] != ',',
        decreases v@.len() - j,
    {
        j += 1;
    }
    proof {
        crate::registry_parser::lemma_comma_len(rest);
        assert forall|t: int| 0 <= t < j - from implies rest[t] != ',' by {
            assert(rest[t] == v@[t + from]);
        }
        if ((j - from) as int) < rest.len() {
            assert(rest[j - from] == v@[j as int]);
        }
        lemma_comma_len_pub(rest, j - from);
        assert(rest.take(crate::registry_parser::comma_len(rest)) =~= v@.subrange(
            from as int,
            j as int,
        ));
        if (j as int) < v@.len() {
            assert(rest.skip(crate::registry_parser::comma_len(rest) + 1) =~= v@.skip(
                j as int + 1,
            ));
        }
    }
    let chunk = sub_chars(v, from, j);
    let part = trim_chars(&chunk);
    let byte: u8 = match parse_radix_u64(&part, 16) {
        Some(val) => {
            if val > 255 {
                return Err("invalid hex byte");
            }
            val as u8
        },
        None => {
            return Err("invalid hex byte");
        },
    };
    if j == v.len() {
        let mut bs: Vec<u8> = Vec::new();
        bs.push(byte);
        proof {
            assert(bs@ =~= seq![byte] + Seq::<u8>::empty());
        }
        Ok(bs)
    } else {
        match parse_hex_bytes_diff_tail(v, j + 1) {
            Ok(tail) => {
                let mut bs: Vec<u8> = Vec::new();
                bs.push(byte);
                let mut k: usize = 0;
                while k < tail.len()
                    invariant
                        k <= tail@.len(),
                        bs@ =~= seq![byte] + tail@.take(k as int),
                    decreases tail@.len() - k,
                {
                    bs.push(tail[k]);
                    proof {
                        assert(bs@ =~= seq![byte] + tail@.take(k as int + 1));
                    }
                    k += 1;
                }
                proof {
                    assert(bs@ =~= seq![byte] + tail@);
                }
                Ok(bs)
            },
            Err(m) => Err(m),
        }
    }
}

proof fn lemma_comma_len_pub(s: Seq<char>, m: int)
    requires
        0 <= m <= s.len(),
        forall|t: int| 0 <= t < m ==> s[t] != ',',
        m < s.len() ==> s[m] == ',',
    ensures
        crate::registry_parser::comma_len(s) == m,
    decreases m,
{
    if m > 0 {
        assert(forall|t: int| 0 <= t < s.skip(1).len() ==> s.skip(1)[t] == s[t + 1]);
        lemma_comma_len_pub(s.skip(1), m - 1);
    }
}


/// Strip all leading and trailing square brackets.
pub open spec fn strip_lead_br(s: Seq<char>) -> Seq<char>
    decreases s.len(),
{
    if s.len() > 0 && (s[0] == '[' || s[0] == ']') {
        strip_lead_br(s.skip(1))
    } else {
        s
    }
}

pub open spec fn strip_trail_br(s: Seq<char>) -> Seq<char>
    decreases s.len(),
{
    if s.len() > 0 && (s.last() == '[' || s.last() == ']') {
        strip_trail_br(s.drop_last())
    } else {
        s
    }
}

pub open spec fn trim_brackets(s: Seq<char>) -> Seq<char> {
    strip_trail_br(strip_lead_br(s))
}

fn trim_brackets_exec(v: Vec<char>) -> (r: Vec<char>)
    ensures
        r@ == trim_brackets(v@),
{
    let mut start: usize = 0;
    proof {
        assert(v@.skip(0) =~= v@);
    }
    while start < v.len() && (v[start] == '[' || v[start] == ']')
        invariant
            start <= v@.len(),
            strip_lead_br(v@) == strip_lead_br(v@.skip(start as int)),
        decreases v@.len() - start,
    {
        proof {
            assert(v@.skip(start as int)[0] == v@[start as int]);
            assert(v@.skip(start as int).skip(1) =~= v@.skip(start as int + 1));
        }
        start += 1;
    }
    proof {
        if (start as int) < v@.len() {
            assert(v@.skip(start as int)[0] == v@[start as int]);
        }
        assert(strip_lead_br(v@) == v@.skip(start as int));
    }
    let mut r = skip_chars(&v, start);
    while r.len() > 0 && (r[r.len() - 1] == '[' || r[r.len() - 1] == ']')
        invariant
            strip_trail_br(v@.skip(start as int)) == strip_trail_br(r@),
        decreases r@.len(),
    {
        let ghost pre = r@;
        r.pop();
        proof {
            assert(r@ =~= pre.drop_last());
        }
    }
    r
}

/// All comma-separated chunks, kept even when empty.
pub open spec fn split_commas(s: Seq<char>) -> Seq<Seq<char>>
    decreases s.len(),
    via split_commas_decreases
{
    let j = crate::registry_parser::comma_len(s);
    if j >= s.len() {
        seq![s.take(j)]
    } else {
        seq![s.take(j)] + split_commas(s.skip(j + 1))
    }
}

#[via_fn]
proof fn split_commas_decreases(s: Seq<char>) {
    crate::registry_parser::lemma_comma_len(s);
}

fn split_commas_exec(v: &Vec<char>, from: usize) -> (r: Vec<Vec<char>>)
    requires
        from <= v@.len(),
    ensures
        crate::registry_key::segs_view(r@) == split_commas(v@.skip(from as int)),
    decreases v@.len() - from,
{
    let ghost rest = v@.skip(from as int);
    let mut j: usize = from;
    while j < v.len() && v[j] != ','
        invariant
            from <= j <= v@.len(),
            forall|t: int| from <= t < j ==> v@[t] != ',',
        decreases v@.len() - j,
    {
        j += 1;
    }
    proof {
        assert forall|t: int| 0 <= t < j - from implies rest[t] != ',' by {
            assert(rest[t] == v@[t + from]);
        }
        if ((j - from) as int) < rest.len() {
            assert(rest[j - from] == v@[j as int]);
        }
        lemma_comma_len_pub(rest, j - from);
        assert(rest.take(crate::registry_parser::comma_len(rest)) =~= v@.subrange(
            from as int,
            j as int,
        ));
        if (j as int) < v@.len() {
            assert(rest.skip(crate::registry_parser::comma_len(rest) + 1) =~= v@.skip(
                j as int + 1,
            ));
        }
    }
    let chunk = sub_chars(v, from, j);
    if j == v.len() {
        let mut r: Vec<Vec<char>> = Vec::new();
        r.push(chunk);
        proof {
            assert(crate::registry_key::segs_view(r@) =~= seq![rest.take(
                crate::registry_parser::comma_len(rest),
            )]);
        }
        r
    } else {
        let tail = split_commas_exec(v, j + 1);
        let mut r: Vec<Vec<char>> = Vec::new();
        r.push(chunk);
        let mut k: usize = 0;
        while k < tail.len()
            invariant
                k <= tail@.len(),
                r@.len() == k + 1,
                r@[0]@ == chunk@,
                forall|t: int| 1 <= t < k + 1 ==> (#[trigger] r@[t])@ == tail@[t - 1]@,
            decreases tail@.len() - k,
        {
            let c2 = sub_chars(&tail[k], 0, tail[k].len());
            proof {
                assert(c2@ =~= tail@[k as int]@);
            }
            r.push(c2);
            k += 1;
        }
        proof {
            let target = seq![rest.take(crate::registry_parser::comma_len(rest))]
                + crate::registry_key::segs_view(tail@);
            assert forall|u: int|
                0 <= u < r@.len() implies crate::registry_key::segs_view(r@)[u] == target[u] by {
                if u > 0 {
                    assert(r@[u]@ == tail@[u - 1]@);
                }
            }
            assert(crate::registry_key::segs_view(r@) =~= target);
        }
        r
    }
}

/// The payload spellings the diff format accepts.
pub open spec fn spec_parse_data_part(data: Seq<char>) -> Result<ValueDataView, Seq<char>> {
    let t = trim_spec(data);
    if starts_with(t, "string:"@) {
        Ok(
            ValueDataView::VString(
                crate::registry_parser::spec_unescape(
                    crate::registry_parser::trim_quotes(trim_spec(t.skip(7))),
                ),
            ),
        )
    } else if starts_with(t, "expand_string:"@) {
        Ok(
            ValueDataView::VExpand(
                crate::registry_parser::spec_unescape(
                    crate::registry_parser::trim_quotes(trim_spec(t.skip(14))),
                ),
            ),
        )
    } else if starts_with(t, "multi_string:"@) {
        let inner = trim_brackets(trim_spec(t.skip(13)));
        if inner.len() == 0 {
            Ok(ValueDataView::VMulti(Seq::empty()))
        } else {
            Ok(
                ValueDataView::VMulti(
                    Seq::new(
                        split_commas(inner).len(),
                        |i: int|
                            crate::registry_parser::spec_unescape(
                                crate::registry_parser::trim_quotes(
                                    trim_spec(split_commas(inner)[i]),
                                ),
                            ),
                    ),
                ),
            )
        }
    } else if starts_with(t, "dword:"@) {
        let h = trim_spec(t.skip(6));
        if is_radix_seq(h, 16) && radix_val(h, 16) <= u32::MAX {
            Ok(ValueDataView::VDword(radix_val(h, 16) as u32))
        } else {
            Err("invalid dword value"@)
        }
    } else if starts_with(t, "qword:"@) {
        let h = trim_spec(t.skip(6));
        if is_radix_seq(h, 16) && radix_val(h, 16) <= u64::MAX {
            Ok(ValueDataView::VQword(radix_val(h, 16) as u64))
        } else {
            Err("invalid qword value"@)
        }
    } else if starts_with(t, "hex("@) {
        match crate::registry_parser::find_close(t) {
            Some(end) => {
                let th = t.subrange(4, end);
                if is_radix_seq(th, 16) && radix_val(th, 16) <= u32::MAX {
                    match spec_parse_hex_bytes_diff(t.skip(end + 2)) {
                        Ok(bs) => Ok(
                            ValueDataView::VBinary(bs, radix_val(th, 16) as u32),
                        ),
                        Err(m) => Err(m),
                    }
                } else {
                    Err("invalid hex type"@)
                }
            },
            None => Err("bad hex"@),
        }
    } else if starts_with(t, "hex:"@) {
        match spec_parse_hex_bytes_diff(t.skip(4)) {
            Ok(bs) => Ok(ValueDataView::VBinary(bs, REG_BINARY)),
            Err(m) => Err(m),
        }
    } else {
        Err("unknown value format"@)
    }
}

#[verifier::rlimit(100)]
fn parse_data_part(data: &Vec<char>) -> (r: Result<RegistryValueData, &'static str>)
    ensures
        match r {
            Ok(d) => spec_parse_data_part(data@) == Ok::<ValueDataView, Seq<char>>(d@),
            Err(m) => spec_parse_data_part(data@) == Err::<ValueDataView, Seq<char>>(m@),
        },
{
    let t = trim_chars(data);
    if starts_with_lit(&t, "string:") {
        proof {
            assert("string:"@.len() == 7) by {
                reveal_strlit("string:");
            }
        }
        let rest = skip_chars(&t, 7);
        let q = crate::registry_parser::trim_quotes_pub(trim_chars(&rest));
        let u = crate::registry_parser::unescape_string(&q);
        Ok(RegistryValueData::String(chars_to_string(&u)))
    } else if starts_with_lit(&t, "expand_string:") {
        proof {
            assert("expand_string:"@.len() == 14) by {
                reveal_strlit("expand_string:");
            }
        }
        let rest = skip_chars(&t, 14);
        let q = crate::registry_parser::trim_quotes_pub(trim_chars(&rest));
        let u = crate::registry_parser::unescape_string(&q);
        Ok(RegistryValueData::ExpandString(chars_to_string(&u)))
    } else if starts_with_lit(&t, "multi_string:") {
        proof {
            assert("multi_string:"@.len() == 13) by {
                reveal_strlit("multi_string:");
            }
        }
        let rest = skip_chars(&t, 13);
        let inner = trim_brackets_exec(trim_chars(&rest));
        if inner.len() == 0 {
            let items: Vec<String> = Vec::new();
            proof {
                assert(Seq::new(items@.len(), |k: int| items@[k]@) =~= Seq::<Seq<char>>::empty());
            }
            Ok(RegistryValueData::MultiString(items))
        } else {
            let parts = split_commas_exec(&inner, 0);
            proof {
                assert(inner@.skip(0) =~= inner@);
            }
            let mut items: Vec<String> = Vec::new();
            let mut i: usize = 0;
            while i < parts.len()
                invariant
                    i <= parts@.len(),
                    items@.len() == i,
                    crate::registry_key::segs_view(parts@) == split_commas(inner@),
                    parts@.len() == split_commas(inner@).len(),
                    forall|j: int|
                        0 <= j < i ==> (#[trigger] items@[j])@
                            == crate::registry_parser::spec_unescape(
                            crate::registry_parser::trim_quotes(
                                trim_spec(split_commas(inner@)[j]),
                            ),
                        ),
                decreases parts@.len() - i,
            {
                proof {
                    assert(parts@[i as int]@ == crate::registry_key::segs_view(parts@)[i as int]);
                }
                let q = crate::registry_parser::trim_quotes_pub(trim_chars(&parts[i]));
                let u = crate::registry_parser::unescape_string(&q);
                items.push(chars_to_string(&u));
                i += 1;
            }
            proof {
                assert(Seq::new(items@.len(), |k: int| items@[k]@) =~= Seq::new(
                    split_commas(inner@).len(),
                    |k: int|
                        crate::registry_parser::spec_unescape(
                            crate::registry_parser::trim_quotes(
                                trim_spec(split_commas(inner@)[k]),
                            ),
                        ),
                ));
            }
            Ok(RegistryValueData::MultiString(items))
        }
    } else if starts_with_lit(&t, "dword:") {
        proof {
            assert("dword:"@.len() == 6) by {
                reveal_strlit("dword:");
            }
        }
        let rest = skip_chars(&t, 6);
        let h = trim_chars(&rest);
        match parse_radix_u64(&h, 16) {
            Some(val) => {
                if val <= 0xFFFF_FFFF {
                    Ok(RegistryValueData::Dword(val as u32))
                } else {
                    Err("invalid dword value")
                }
            },
            None => Err("invalid dword value"),
        }
    } else if starts_with_lit(&t, "qword:") {
        proof {
            assert("qword:"@.len() == 6) by {
                reveal_strlit("qword:");
            }
        }
        let rest = skip_chars(&t, 6);
        let h = trim_chars(&rest);
        match parse_radix_u64(&h, 16) {
            Some(val) => Ok(RegistryValueData::Qword(val)),
            None => Err("invalid qword value"),
        }
    } else if starts_with_lit(&t, "hex(") {
        proof {
            assert("hex("@.len() == 4) by {
                reveal_strlit("hex(");
            }
        }
        match crate::registry_parser::find_close_exec(&t) {
            Some(end) => {
                proof {
                    crate::registry_parser::lemma_find_close(t@);
                }
                let th = sub_chars(&t, 4, if end >= 4 {
                    end
                } else {
                    4
                });
                proof {
                    if (end as int) < 4 {
                        assert(t@[end as int] == ')');
                        assert(t@.take(4)[end as int] == t@[end as int]);
                        assert(false) by {
                            reveal_strlit("hex(");
                        }
                    }
                }
                match parse_radix_u64(&th, 16) {
                    Some(tyv) => {
                        if tyv <= 0xFFFF_FFFF {
                            let tn = t.len();
                            proof {
                                assert(end + 2 <= tn);
                            }
                            let rest = skip_chars(&t, end + 2);
                            match parse_hex_bytes_diff(&rest) {
                                Ok(bs) => Ok(RegistryValueData::Binary(bs, tyv as u32)),
                                Err(m) => Err(m),
                            }
                        } else {
                            Err("invalid hex type")
                        }
                    },
                    None => Err("invalid hex type"),
                }
            },
            None => Err("bad hex"),
        }
    } else if starts_with_lit(&t, "hex:") {
        proof {
            assert("hex:"@.len() == 4) by {
                reveal_strlit("hex:");
            }
        }
        let rest = skip_chars(&t, 4);
        match parse_hex_bytes_diff(&rest) {
            Ok(bs) => Ok(RegistryValueData::Binary(bs, 3)),
            Err(m) => Err(m),
        }
    } else {
        Err("unknown value format")
    }
}


/// A value line's name and payload: the quoted name before the `=`, the
/// payload after it.
pub open spec fn spec_parse_value(line: Seq<char>) -> Result<(Seq<char>, ValueDataView), Seq<char>> {
    match crate::registry_parser::find_char(line, '=') {
        Some(eq) => {
            let name = crate::registry_parser::spec_unescape(
                crate::registry_parser::trim_quotes(line.take(eq)),
            );
            match spec_parse_data_part(line.skip(eq + 1)) {
                Ok(d) => Ok((name, d)),
                Err(m) => Err(m),
            }
        },
        None => Err("invalid value line"@),
    }
}

pub open spec fn spec_parse_value_mod(line: Seq<char>) -> Result<
    (Seq<char>, ValueDataView, ValueDataView),
    Seq<char>,
> {
    match crate::registry_parser::find_char(line, '=') {
        Some(eq) => {
            let name = crate::registry_parser::spec_unescape(
                crate::registry_parser::trim_quotes(line.take(eq)),
            );
            let rest = line.skip(eq + 1);
            match find_arrow(rest) {
                Some(a) => {
                    match (spec_parse_data_part(rest.take(a)), spec_parse_data_part(
                        rest.skip(a + 2),
                    )) {
                        (Ok(o), Ok(n)) => Ok((name, o, n)),
                        (Err(m), _) => Err(m),
                        (_, Err(m)) => Err(m),
                    }
                },
                None => Err("missing ->"@),
            }
        },
        None => Err("invalid modification"@),
    }
}

/// Record a key-property change under its path, keeping the per-path groups
/// sorted by path and in arrival order inside each group.
pub open spec fn props_add(
    m: Seq<(Seq<char>, Seq<PropView>)>,
    p: Seq<char>,
    pr: PropView,
) -> Seq<(Seq<char>, Seq<PropView>)>
    decreases m.len(),
{
    if m.len() == 0 {
        seq![(p, seq![pr])]
    } else if p == m[0].0 {
        seq![(m[0].0, m[0].1.push(pr))] + m.skip(1)
    } else if lex_lt(p, m[0].0) {
        seq![(p, seq![pr])] + m
    } else {
        seq![m[0]] + props_add(m.skip(1), p, pr)
    }
}

pub open spec fn props_to_changes(m: Seq<(Seq<char>, Seq<PropView>)>) -> Seq<ChangeView>
    decreases m.len(),
{
    if m.len() == 0 {
        Seq::empty()
    } else {
        seq![ChangeView::KeyModified(m[0].0, m[0].1)] + props_to_changes(m.skip(1))
    }
}

pub open spec fn line_err(i: int) -> Seq<char> {
    "line "@ + radix_chars((i + 1) as nat, 10)
}

/// The line-by-line parse of the diff format.
pub open spec fn diff_parse_from(
    lines: Seq<Seq<char>>,
    i: int,
    path: Seq<char>,
    changes: Seq<ChangeView>,
    props: Seq<(Seq<char>, Seq<PropView>)>,
) -> Result<(Seq<ChangeView>, Seq<(Seq<char>, Seq<PropView>)>), Seq<char>>
    decreases lines.len() - i,
{
    if i < 0 || i >= lines.len() {
        Ok((changes, props))
    } else {
        let t = trim_spec(lines[i]);
        if t.len() == 0 || t[0] == '#' {
            diff_parse_from(lines, i + 1, path, changes, props)
        } else if t.len() >= 2 && t[0] == '[' && t.last() == ']' {
            let inner = t.subrange(1, t.len() - 1);
            let p2: Seq<char> = if inner == "ROOT"@ {
                Seq::empty()
            } else {
                inner
            };
            diff_parse_from(lines, i + 1, p2, changes, props)
        } else if starts_with(t, "+key:"@) {
            diff_parse_from(
                lines,
                i + 1,
                path,
                changes.push(
                    ChangeView::KeyAdded(
                        crate::registry_comparator::join_seg(path, t.skip(5)),
                    ),
                ),
                props,
            )
        } else if starts_with(t, "-key:"@) {
            diff_parse_from(
                lines,
                i + 1,
                path,
                changes.push(
                    ChangeView::KeyDeleted(
                        crate::registry_comparator::join_seg(path, t.skip(5)),
                    ),
                ),
                props,
            )
        } else if starts_with(t, "~className:"@) {
            match find_arrow(t.skip(11)) {
                Some(a) => {
                    let old_v = spec_parse_prop_value(t.skip(11).take(a));
                    let new_v = spec_parse_prop_value(t.skip(11).skip(a + 2));
                    diff_parse_from(
                        lines,
                        i + 1,
                        path,
                        changes,
                        props_add(props, path, PropView::ClassNameChange(old_v, new_v)),
                    )
                },
                None => Err("missing ->"@),
            }
        } else if starts_with(t, "~isSymlink:"@) {
            match find_arrow(t.skip(11)) {
                Some(a) => {
                    let ot = trim_spec(t.skip(11).take(a));
                    let nt = trim_spec(t.skip(11).skip(a + 2));
                    if (ot == "true"@ || ot == "false"@) && (nt == "true"@ || nt == "false"@) {
                        diff_parse_from(
                            lines,
                            i + 1,
                            path,
                            changes,
                            props_add(
                                props,
                                path,
                                PropView::SymlinkChange(ot == "true"@, nt == "true"@),
                            ),
                        )
                    } else {
                        Err(line_err(i))
                    }
                },
                None => Err("missing ->"@),
            }
        } else if starts_with(t, "~isVolatile:"@) {
            match find_arrow(t.skip(12)) {
                Some(a) => {
                    let ot = trim_spec(t.skip(12).take(a));
                    let nt = trim_spec(t.skip(12).skip(a + 2));
                    if (ot == "true"@ || ot == "false"@) && (nt == "true"@ || nt == "false"@) {
                        diff_parse_from(
                            lines,
                            i + 1,
                            path,
                            changes,
                            props_add(
                                props,
                                path,
                                PropView::VolatileChange(ot == "true"@, nt == "true"@),
                            ),
                        )
                    } else {
                        Err(line_err(i))
                    }
                },
                None => Err("missing ->"@),
            }
        } else if starts_with(t, "+\""@) || starts_with(t, "-\""@) {
            match spec_parse_value(t.skip(1)) {
                Ok(nv) => {
                    let value = ValueView { name: Seq::empty(), data: nv.1 };
                    let c = if t[0] == '+' {
                        ChangeView::ValueAdded(path, nv.0, value)
                    } else {
                        ChangeView::ValueDeleted(path, nv.0, value)
                    };
                    diff_parse_from(lines, i + 1, path, changes.push(c), props)
                },
                Err(m) => Err(m),
            }
        } else if starts_with(t, "~\""@) {
            match spec_parse_value_mod(t.skip(1)) {
                Ok(nov) => {
                    let c = ChangeView::ValueModified(
                        path,
                        nov.0,
                        ValueView { name: Seq::empty(), data: nov.1 },
                        ValueView { name: Seq::empty(), data: nov.2 },
                    );
                    diff_parse_from(lines, i + 1, path, changes.push(c), props)
                },
                Err(m) => Err(m),
            }
        } else {
            diff_parse_from(lines, i + 1, path, changes, props)
        }
    }
}

/// The whole diff parse: the grammar over the lines, with the aggregated
/// key-property changes appended after all other changes.
pub open spec fn spec_parse_diff(text: Seq<char>) -> Result<Seq<ChangeView>, Seq<char>> {
    match diff_parse_from(
        crate::registry_parser::split_lines(text),
        0,
        Seq::empty(),
        Seq::empty(),
        Seq::empty(),
    ) {
        Ok(r) => Ok(r.0 + props_to_changes(r.1)),
        Err(m) => Err(m),
    }
}


pub open spec fn props_view(v: Seq<(String, Vec<KeyPropertyChange>)>) -> Seq<
    (Seq<char>, Seq<PropView>),
> {
    Seq::new(v.len(), |i: int| (v[i].0@, Seq::new(v[i].1@.len(), |j: int| v[i].1@[j]@)))
}

proof fn lemma_props_add_positional(
    m: Seq<(Seq<char>, Seq<PropView>)>,
    p: Seq<char>,
    pr: PropView,
    pos: int,
)
    requires
        0 <= pos <= m.len(),
        forall|j: int| 0 <= j < pos ==> lex_lt((#[trigger] m[j]).0, p),
        pos < m.len() ==> lex_lt(p, m[pos].0),
    ensures
        props_add(m, p, pr) == m.insert(pos, (p, seq![pr])),
    decreases pos,
{
    if pos == 0 {
        if m.len() > 0 {
            crate::text::lemma_lex_trichotomy(p, m[0].0);
        }
        assert(props_add(m, p, pr) =~= m.insert(0, (p, seq![pr])));
    } else {
        crate::text::lemma_lex_trichotomy(p, m[0].0);
        lemma_props_add_positional(m.skip(1), p, pr, pos - 1);
        assert(props_add(m, p, pr) =~= seq![m[0]] + props_add(m.skip(1), p, pr));
        assert(seq![m[0]] + m.skip(1).insert(pos - 1, (p, seq![pr])) =~= m.insert(
            pos,
            (p, seq![pr]),
        ));
    }
}

proof fn lemma_props_add_present(
    m: Seq<(Seq<char>, Seq<PropView>)>,
    p: Seq<char>,
    pr: PropView,
    pos: int,
)
    requires
        0 <= pos < m.len(),
        m[pos].0 == p,
        forall|j: int| 0 <= j < pos ==> lex_lt((#[trigger] m[j]).0, p),
    ensures
        props_add(m, p, pr) == m.update(pos, (m[pos].0, m[pos].1.push(pr))),
    decreases pos,
{
    if pos == 0 {
        assert(props_add(m, p, pr) =~= m.update(0, (m[0].0, m[0].1.push(pr))));
    } else {
        crate::text::lemma_lex_trichotomy(p, m[0].0);
        lemma_props_add_present(m.skip(1), p, pr, pos - 1);
        assert(props_add(m, p, pr) =~= seq![m[0]] + props_add(m.skip(1), p, pr));
        assert(seq![m[0]] + m.skip(1).update(pos - 1, (m[pos].0, m[pos].1.push(pr))) =~= m.update(
            pos,
            (m[pos].0, m[pos].1.push(pr)),
        ));
    }
}

#[verifier::rlimit(100)]
fn props_record(
    props: &mut Vec<(String, Vec<KeyPropertyChange>)>,
    path: &Vec<char>,
    pr: KeyPropertyChange,
)
    ensures
        props_view(final (props)@) == props_add(props_view(old(props)@), path@, pr@),
{
    let ghost mv = props_view(props@);
    let mut pos: usize = 0;
    let mut found = false;
    let mut stop = false;
    while pos < props.len() && !found && !stop
        invariant
            pos <= props@.len(),
            mv == props_view(props@),
            mv.len() == props@.len(),
            found ==> pos < props@.len() && (#[trigger] props@[pos as int]).0@ == path@,
            stop ==> pos < props@.len() && lex_lt(path@, props@[pos as int].0@),
            forall|j: int| 0 <= j < pos ==> lex_lt((#[trigger] props@[j]).0@, path@),
        decreases props@.len() - pos + (if found || stop {
            0int
        } else {
            1int
        }),
    {
        let kc = str_chars(props[pos].0.as_str());
        let c = lex_cmp(&kc, path);
        if c == 0 {
            found = true;
        } else if c > 0 {
            proof {
                crate::text::lemma_lex_trichotomy(props@[pos as int].0@, path@);
            }
            stop = true;
        } else {
            pos += 1;
        }
    }
    if found {
        let (key, mut list) = props.remove(pos);
        let ghost lv = Seq::new(list@.len(), |j: int| list@[j]@);
        list.push(pr);
        proof {
            assert(Seq::new(list@.len(), |j: int| list@[j]@) =~= lv.push(pr@));
        }
        props.insert(pos, (key, list));
        proof {
            lemma_props_add_present(mv, path@, pr@, pos as int);
            let e0 = mv[pos as int];
            assert(props_view(props@) =~= mv.update(pos as int, (e0.0, e0.1.push(pr@))));
        }
    } else {
        let mut list: Vec<KeyPropertyChange> = Vec::new();
        list.push(pr);
        proof {
            assert(Seq::new(list@.len(), |j: int| list@[j]@) =~= seq![pr@]);
        }
        props.insert(pos, (chars_to_string(path), list));
        proof {
            lemma_props_add_positional(mv, path@, pr@, pos as int);
            assert(props_view(props@) =~= mv.insert(pos as int, (path@, seq![pr@])));
        }
    }
}

/// Handle a `+"name"=payload` or `-"name"=payload` line.
#[verifier::rlimit(100)]
fn handle_value_line(changes: &mut Vec<RegistryChange>, path: &Vec<char>, t: &Vec<char>) -> (r:
    Result<(), String>)
    requires
        t@.len() >= 1,
        t@[0] == '+' || t@[0] == '-',
    ensures
        match r {
            Ok(_) => spec_parse_value(t@.skip(1)) matches Ok(nv) && final (changes).deep_view()
                == old(changes).deep_view().push(
                if t@[0] == '+' {
                    ChangeView::ValueAdded(
                        path@,
                        nv.0,
                        ValueView { name: Seq::empty(), data: nv.1 },
                    )
                } else {
                    ChangeView::ValueDeleted(
                        path@,
                        nv.0,
                        ValueView { name: Seq::empty(), data: nv.1 },
                    )
                },
            ),
            Err(m) => spec_parse_value(t@.skip(1)) == Err::<
                (Seq<char>, ValueDataView),
                Seq<char>,
            >(m@) && final (changes).deep_view() == old(changes).deep_view(),
        },
{
    let adding = t[0] == '+';
    let rest = skip_chars(t, 1);
    match crate::registry_parser::find_char_exec(&rest, '=') {
        Some(eq) => {
            proof {
                crate::registry_parser::lemma_find_char(rest@, '=');
            }
            let raw = sub_chars(&rest, 0, eq);
            let q = crate::registry_parser::trim_quotes_pub(raw);
            let name = crate::registry_parser::unescape_string(&q);
            let rn = rest.len();
            proof {
                crate::registry_parser::lemma_find_char(rest@, '=');
                assert(eq + 1 <= rn);
                assert(rest@.take(eq as int) =~= rest@.subrange(0, eq as int));
            }
            let datap = skip_chars(&rest, eq + 1);
            match parse_data_part(&datap) {
                Ok(d) => {
                    let value = RegistryValue { name: String::new(), data: d };
                    let nm = chars_to_string(&name);
                    let ps = chars_to_string(path);
                    let ghost pre = changes.deep_view();
                    if adding {
                        changes.push(RegistryChange::ValueAdded(ps, nm, value));
                    } else {
                        changes.push(RegistryChange::ValueDeleted(ps, nm, value));
                    }
                    proof {
                        assert(changes.deep_view() =~= pre.push(changes@[changes@.len() - 1]@));
                    }
                    Ok(())
                },
                Err(m) => Err(String::from_str(m)),
            }
        },
        None => Err(String::from_str("invalid value line")),
    }
}

/// Handle a `~"name"=old->new` line.
#[verifier::rlimit(100)]
fn handle_value_mod_line(changes: &mut Vec<RegistryChange>, path: &Vec<char>, t: &Vec<char>) -> (r:
    Result<(), String>)
    requires
        t@.len() >= 1,
    ensures
        match r {
            Ok(_) => spec_parse_value_mod(t@.skip(1)) matches Ok(nov) && final (
            changes).deep_view() == old(changes).deep_view().push(
                ChangeView::ValueModified(
                    path@,
                    nov.0,
                    ValueView { name: Seq::empty(), data: nov.1 },
                    ValueView { name: Seq::empty(), data: nov.2 },
                ),
            ),
            Err(m) => spec_parse_value_mod(t@.skip(1)) == Err::<
                (Seq<char>, ValueDataView, ValueDataView),
                Seq<char>,
            >(m@) && final (changes).deep_view() == old(changes).deep_view(),
        },
{
    let rest = skip_chars(t, 1);
    match crate::registry_parser::find_char_exec(&rest, '=') {
        Some(eq) => {
            proof {
                crate::registry_parser::lemma_find_char(rest@, '=');
            }
            let raw = sub_chars(&rest, 0, eq);
            let q = crate::registry_parser::trim_quotes_pub(raw);
            let name = crate::registry_parser::unescape_string(&q);
            let rn = rest.len();
            proof {
                crate::registry_parser::lemma_find_char(rest@, '=');
                assert(eq + 1 <= rn);
                assert(rest@.take(eq as int) =~= rest@.subrange(0, eq as int));
            }
            let after = skip_chars(&rest, eq + 1);
            match find_arrow_exec(&after) {
                Some(a) => {
                    proof {
                        lemma_find_arrow(after@);
                    }
                    let oldp = sub_chars(&after, 0, a);
                    let an = after.len();
                    proof {
                        assert(a + 2 <= an);
                        assert(oldp@ =~= after@.take(a as int));
                    }
                    let newp = skip_chars(&after, a + 2);
                    match parse_data_part(&oldp) {
                        Ok(od) => match parse_data_part(&newp) {
                            Ok(nd) => {
                                let ghost pre = changes.deep_view();
                                let ps = chars_to_string(path);
                                let nm = chars_to_string(&name);
                                changes.push(
                                    RegistryChange::ValueModified(
                                        ps,
                                        nm,
                                        RegistryValue { name: String::new(), data: od },
                                        RegistryValue { name: String::new(), data: nd },
                                    ),
                                );
                                proof {
                                    assert(changes.deep_view() =~= pre.push(
                                        changes@[changes@.len() - 1]@,
                                    ));
                                }
                                Ok(())
                            },
                            Err(m) => Err(String::from_str(m)),
                        },
                        Err(m) => Err(String::from_str(m)),
                    }
                },
                None => Err(String::from_str("missing ->")),
            }
        },
        None => Err(String::from_str("invalid modification")),
    }
}

pub struct TextDiffParser;

impl TextDiffParser {
    /// Parse the textual diff format back into an unordered change list; the
    /// aggregated key-property changes come after all other changes.
    #[verifier::rlimit(100)]
    pub fn parse(&self, text: &str) -> (r: Result<DiffResult, String>)
        ensures
            match r {
                Ok(d) => spec_parse_diff(text@) == Ok::<Seq<ChangeView>, Seq<char>>(
                    d.changes.deep_view(),
                ),
                Err(m) => spec_parse_diff(text@) == Err::<Seq<ChangeView>, Seq<char>>(m@),
            },
    {
        let tc = str_chars(text);
        let lines = crate::registry_parser::split_lines_chars(&tc);
        let ghost lv = crate::registry_parser::split_lines(text@);
        let mut path: Vec<char> = Vec::new();
        let mut changes: Vec<RegistryChange> = Vec::new();
        let mut props: Vec<(String, Vec<KeyPropertyChange>)> = Vec::new();
        let mut i: usize = 0;
        proof {
            assert(changes.deep_view() =~= Seq::<ChangeView>::empty());
            assert(props_view(props@) =~= Seq::<(Seq<char>, Seq<PropView>)>::empty());
            assert(path@ =~= Seq::<char>::empty());
        }
        while i < lines.len()
            invariant
                i <= lines@.len(),
                lv == crate::registry_parser::split_lines(text@),
                crate::registry_key::segs_view(lines@) == lv,
                lines@.len() == lv.len(),
                diff_parse_from(lv, 0, Seq::empty(), Seq::empty(), Seq::empty())
                    == diff_parse_from(
                    lv,
                    i as int,
                    path@,
                    changes.deep_view(),
                    props_view(props@),
                ),
            decreases lines@.len() - i,
        {
            proof {
                assert(lines@[i as int]@ == lv[i as int]);
            }
            let t = trim_chars(&lines[i]);
            if t.len() == 0 || t[0] == '#' {
                i += 1;
                continue ;
            }
            if t.len() >= 2 && t[0] == '[' && t[t.len() - 1] == ']' {
                let inner = sub_chars(&t, 1, t.len() - 1);
                let rootlit = str_chars("ROOT");
                if crate::text::chars_eq(&inner, &rootlit) {
                    path = Vec::new();
                    proof {
                        assert(path@ =~= Seq::<char>::empty());
                    }
                } else {
                    path = inner;
                }
                i += 1;
                continue ;
            }
            if starts_with_lit(&t, "+key:") || starts_with_lit(&t, "-key:") {
                proof {
                    assert("+key:"@.len() == 5) by {
                        reveal_strlit("+key:");
                    }
                    assert("-key:"@.len() == 5) by {
                        reveal_strlit("-key:");
                    }
                }
                let adding = t[0] == '+';
                proof {
                    assert("+key:"@[0] == '+') by {
                        reveal_strlit("+key:");
                    }
                    assert("-key:"@[0] == '-') by {
                        reveal_strlit("-key:");
                    }
                    if starts_with(t@, "+key:"@) {
                        assert(t@.take(5)[0] == t@[0]);
                    }
                    if starts_with(t@, "-key:"@) {
                        assert(t@.take(5)[0] == t@[0]);
                    }
                }
                let name = skip_chars(&t, 5);
                let mut full: Vec<char> = Vec::new();
                if path.len() == 0 {
                    push_chars(&mut full, &name);
                } else {
                    push_chars(&mut full, &path);
                    full.push('\\');
                    push_chars(&mut full, &name);
                }
                proof {
                    assert(full@ =~= crate::registry_comparator::join_seg(path@, t@.skip(5)));
                }
                let ghost pre = changes.deep_view();
                if adding {
                    changes.push(RegistryChange::KeyAdded(chars_to_string(&full)));
                    proof {
                        assert(changes.deep_view() =~= pre.push(
                            ChangeView::KeyAdded(
                                crate::registry_comparator::join_seg(path@, t@.skip(5)),
                            ),
                        ));
                    }
                } else {
                    changes.push(RegistryChange::KeyDeleted(chars_to_string(&full)));
                    proof {
                        assert(changes.deep_view() =~= pre.push(
                            ChangeView::KeyDeleted(
                                crate::registry_comparator::join_seg(path@, t@.skip(5)),
                            ),
                        ));
                    }
                }
                i += 1;
                continue ;
            }
            if starts_with_lit(&t, "~className:") {
                proof {
                    assert("~className:"@.len() == 11) by {
                        reveal_strlit("~className:");
                    }
                }
                let rest = skip_chars(&t, 11);
                match find_arrow_exec(&rest) {
                    Some(a) => {
                        proof {
                            lemma_find_arrow(rest@);
                        }
                        let oldp = sub_chars(&rest, 0, a);
                        let rn = rest.len();
                        proof {
                            assert(a + 2 <= rn);
                        }
                        let newp = skip_chars(&rest, a + 2);
                        let ov = parse_prop_value(&oldp);
                        let nv = parse_prop_value(&newp);
                        proof {
                            assert(oldp@ =~= rest@.take(a as int));
                        }
                        props_record(
                            &mut props,
                            &path,
                            KeyPropertyChange::ClassNameChange(ov, nv),
                        );
                        i += 1;
                        continue ;
                    },
                    None => {
                        return Err(String::from_str("missing ->"));
                    },
                }
            }
            if starts_with_lit(&t, "~isSymlink:") || starts_with_lit(&t, "~isVolatile:") {
                proof {
                    assert("~isSymlink:"@.len() == 11) by {
                        reveal_strlit("~isSymlink:");
                    }
                    assert("~isVolatile:"@.len() == 12) by {
                        reveal_strlit("~isVolatile:");
                    }
                }
                let symlink = starts_with_lit(&t, "~isSymlink:");
                let off: usize = if symlink {
                    11
                } else {
                    12
                };
                let rest = skip_chars(&t, off);
                match find_arrow_exec(&rest) {
                    Some(a) => {
                        proof {
                            lemma_find_arrow(rest@);
                        }
                        let oldp = sub_chars(&rest, 0, a);
                        let rn = rest.len();
                        proof {
                            assert(a + 2 <= rn);
                        }
                        let newp = skip_chars(&rest, a + 2);
                        let ot = trim_chars(&oldp);
                        let nt = trim_chars(&newp);
                        let tl = str_chars("true");
                        let fl = str_chars("false");
                        let o_true = crate::text::chars_eq(&ot, &tl);
                        let o_false = crate::text::chars_eq(&ot, &fl);
                        let n_true = crate::text::chars_eq(&nt, &tl);
                        let n_false = crate::text::chars_eq(&nt, &fl);
                        proof {
                            assert(oldp@ =~= rest@.take(a as int));
                        }
                        if (o_true || o_false) && (n_true || n_false) {
                            let pr = if symlink {
                                KeyPropertyChange::SymlinkChange(o_true, n_true)
                            } else {
                                KeyPropertyChange::VolatileChange(o_true, n_true)
                            };
                            props_record(&mut props, &path, pr);
                            i += 1;
                            continue ;
                        } else {
                            let mut m = String::from_str("line ");
                            let d = u64_to_radix((i + 1) as u64, 10);
                            let ds = chars_to_string(&d);
                            m.append(ds.as_str());
                            proof {
                                assert(m@ =~= line_err(i as int));
                            }
                            return Err(m);
                        }
                    },
                    None => {
                        return Err(String::from_str("missing ->"));
                    },
                }
            }
            if starts_with_lit(&t, "+\"") || starts_with_lit(&t, "-\"") {
                proof {
                    assert("+\""@.len() == 2 && "+\""@[0] == '+') by {
                        reveal_strlit("+\"");
                    }
                    assert("-\""@.len() == 2 && "-\""@[0] == '-') by {
                        reveal_strlit("-\"");
                    }
                    if starts_with(t@, "+\""@) {
                        assert(t@.take(2)[0] == t@[0]);
                    }
                    if starts_with(t@, "-\""@) {
                        assert(t@.take(2)[0] == t@[0]);
                    }
                }
                match handle_value_line(&mut changes, &path, &t) {
                    Ok(()) => {
                        i += 1;
                        continue ;
                    },
                    Err(m) => {
                        return Err(m);
                    },
                }
            }
            if starts_with_lit(&t, "~\"") {
                proof {
                    assert("~\""@.len() == 2) by {
                        reveal_strlit("~\"");
                    }
                }
                match handle_value_mod_line(&mut changes, &path, &t) {
                    Ok(()) => {
                        i += 1;
                        continue ;
                    },
                    Err(m) => {
                        return Err(m);
                    },
                }
            }
            i += 1;
        }
        // append the aggregated key-property changes
        let ghost base_changes = changes.deep_view();
        let ghost pm = props_view(props@);
        let mut k: usize = 0;
        proof {
            assert(pm.skip(0) =~= pm);
        }
        while k < props.len()
            invariant
                k <= props@.len(),
                pm == props_view(props@),
                pm.len() == props@.len(),
                base_changes + props_to_changes(pm) =~= changes.deep_view() + props_to_changes(
                    pm.skip(k as int),
                ),
            decreases props@.len() - k,
        {
            proof {
                assert(pm.skip(k as int)[0] == pm[k as int]);
                assert(pm.skip(k as int).skip(1) =~= pm.skip(k as int + 1));
            }
            let key = props[k].0.clone();
            let mut list: Vec<KeyPropertyChange> = Vec::new();
            let mut j: usize = 0;
            while j < props[k].1.len()
                invariant
                    k < props@.len(),
                    j <= props@[k as int].1@.len(),
                    list@.len() == j,
                    forall|u: int|
                        0 <= u < j ==> (#[trigger] list@[u])@ == props@[k as int].1@[u]@,
                decreases props@[k as int].1@.len() - j,
            {
                let pr = clone_prop(&props[k].1[j]);
                list.push(pr);
                j += 1;
            }
            let ghost pre = changes.deep_view();
            changes.push(RegistryChange::KeyModified(key, list));
            proof {
                assert(Seq::new(list@.len(), |u: int| list@[u]@) =~= pm[k as int].1);
                assert(changes.deep_view() =~= pre.push(
                    ChangeView::KeyModified(pm[k as int].0, pm[k as int].1),
                ));
            }
            k += 1;
        }
        proof {
            assert(pm.skip(pm.len() as int) =~= Seq::<(Seq<char>, Seq<PropView>)>::empty());
            assert(changes.deep_view() =~= base_changes + props_to_changes(pm));
            assert(lv.skip(lv.len() as int) =~= Seq::<Seq<char>>::empty());
        }
        Ok(DiffResult { changes })
    }
}

fn clone_prop(p: &KeyPropertyChange) -> (r: KeyPropertyChange)
    ensures
        r@ == p@,
{
    match p {
        KeyPropertyChange::ClassNameChange(a, b) => KeyPropertyChange::ClassNameChange(
            match a {
                Some(x) => Some(x.clone()),
                None => None,
            },
            match b {
                Some(x) => Some(x.clone()),
                None => None,
            },
        ),
        KeyPropertyChange::SymlinkChange(a, b) => KeyPropertyChange::SymlinkChange(*a, *b),
        KeyPropertyChange::VolatileChange(a, b) => KeyPropertyChange::VolatileChange(*a, *b),
    }
}


} // verus!
