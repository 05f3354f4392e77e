use vstd::prelude::*;
use crate::architecture::Architecture;
use crate::registry_key::{RegistryKey, KeyView, EntryView, lemma_views_of};
use crate::registry_value::{ValueView, ValueDataView, le_bytes};
use crate::registry_utils::spec_filetime_to_timestamp;
use crate::text::{radix_chars, padded_radix_chars, u64_to_radix, u64_to_radix_padded, str_chars,
    push_str_chars, push_chars, chars_to_string};

verus! {

broadcast use vstd::std_specs::vec::group_vec_axioms;

// ---------------------------------------------------------------------------
// Escaping.
// ---------------------------------------------------------------------------

/// The escape spelling of one character inside quoted text.
pub open spec fn escape_char(c: char) -> Seq<char> {
    if c == '\\' {
        seq!['\\', '\\']
    } else if c == '"' {
        seq!['\\', '"']
    } else if c == '\n' {
        seq!['\\', 'n']
    } else if c == '\r' {
        seq!['\\', 'r']
    } else if c == '\t' {
        seq!['\\', 't']
    } else if c == '\u{0}' {
        seq!['\\', '0']
    } else {
        seq![c]
    }
}

pub open spec fn escape_seq(s: Seq<char>) -> Seq<char>
    decreases s.len(),
{
    if s.len() == 0 {
        Seq::empty()
    } else {
        escape_char(s[0]) + escape_seq(s.skip(1))
    }
}

/// Append the escaped form of `v`.
pub fn push_escaped(out: &mut Vec<char>, v: &Vec<char>)
    ensures
        final (out)@ == old(out)@ + escape_seq(v@),
{
    let mut i: usize = 0;
    proof {
        assert(v@.skip(0) =~= v@);
    }
    while i < v.len()
        invariant
            i <= v@.len(),
            old(out)@ + escape_seq(v@) =~= out@ + escape_seq(v@.skip(i as int)),
        decreases v@.len() - i,
    {
        proof {
            assert(v@.skip(i as int)[0] == v@[i as int]);
            assert(v@.skip(i as int).skip(1) =~= v@.skip(i as int + 1));
        }
        let c = v[i];
        if c == '\\' {
            out.push('\\');
            out.push('\\');
        } else if c == '"' {
            out.push('\\');
            out.push('"');
        } else if c == '\n' {
            out.push('\\');
            out.push('n');
        } else if c == '\r' {
            out.push('\\');
            out.push('r');
        } else if c == '\t' {
            out.push('\\');
            out.push('t');
        } else if c == '\u{0}' {
            out.push('\\');
            out.push('0');
        } else {
            out.push(c);
        }
        i += 1;
    }
    proof {
        assert(v@.skip(v@.len() as int) =~= Seq::<char>::empty());
        assert(out@ =~= old(out)@ + escape_seq(v@));
    }
}

/// The escaped form of a string, as a string.
pub fn escape_string(s: &str) -> (r: String)
    ensures
        r@ == escape_seq(s@),
{
    let cs = str_chars(s);
    let mut out: Vec<char> = Vec::new();
    push_escaped(&mut out, &cs);
    chars_to_string(&out)
}

// ---------------------------------------------------------------------------
// Hex byte runs, wrapped after roughly 76 characters.
// ---------------------------------------------------------------------------
pub open spec fn hex_run(bytes: Seq<u8>, cnt: int) -> Seq<char>
    decreases bytes.len(),
{
    if bytes.len() == 0 {
        seq!['\n']
    } else if bytes.len() == 1 {
        padded_radix_chars(bytes[0] as nat, 16, 2) + seq!['\n']
    } else {
        let nc = cnt + 3;
        if nc >= 76 {
            padded_radix_chars(bytes[0] as nat, 16, 2) + seq![',', '\\', '\n', ' ', ' ']
                + hex_run(bytes.skip(1), 2)
        } else {
            padded_radix_chars(bytes[0] as nat, 16, 2) + seq![','] + hex_run(bytes.skip(1), nc)
        }
    }
}

pub fn push_hex_run(out: &mut Vec<char>, bytes: &Vec<u8>, start: usize)
    requires
        start <= 100,
    ensures
        final (out)@ == old(out)@ + hex_run(bytes@, start as int),
{
    let mut cnt: usize = start;
    let mut i: usize = 0;
    proof {
        assert(bytes@.skip(0) =~= bytes@);
    }
    while i < bytes.len()
        invariant
            i <= bytes@.len(),
            cnt <= 100,
            old(out)@ + hex_run(bytes@, start as int) =~= out@ + hex_run(
                bytes@.skip(i as int),
                cnt as int,
            ),
        decreases bytes@.len() - i,
    {
        proof {
            assert(bytes@.skip(i as int)[0] == bytes@[i as int]);
            assert(bytes@.skip(i as int).skip(1) =~= bytes@.skip(i as int + 1));
        }
        let d = u64_to_radix_padded(bytes[i] as u64, 16, 2);
        push_chars(out, &d);
        if i + 1 != bytes.len() {
            out.push(',');
            if cnt + 3 >= 76 {
                out.push('\\');
                out.push('\n');
                out.push(' ');
                out.push(' ');
                cnt = 2;
            } else {
                cnt = cnt + 3;
            }
        }
        i += 1;
    }
    out.push('\n');
    proof {
        assert(bytes@.skip(bytes@.len() as int) =~= Seq::<u8>::empty());
        assert(out@ =~= old(out)@ + hex_run(bytes@, start as int));
    }
}

// ---------------------------------------------------------------------------
// Value lines.
// ---------------------------------------------------------------------------

/// The inner text of a multi-string payload: the escaped items joined and
/// terminated by the two-character `\0` spelling.
pub open spec fn multi_inner(items: Seq<Seq<char>>) -> Seq<char>
    decreases items.len(),
{
    if items.len() == 0 {
        Seq::empty()
    } else if items.len() == 1 {
        escape_seq(items[0])
    } else {
        escape_seq(items[0]) + seq!['\\', '0'] + multi_inner(items.skip(1))
    }
}

/// The rendered form of one value line, newline included.
pub open spec fn render_value(v: ValueView) -> Seq<char> {
    let head: Seq<char> = if v.name.len() == 0 {
        "@="@
    } else {
        seq!['"'] + escape_seq(v.name) + seq!['"', '=']
    };
    let body: Seq<char> = match v.data {
        ValueDataView::VString(s) => seq!['"'] + escape_seq(s) + seq!['"', '\n'],
        ValueDataView::VExpand(s) => "str(2):"@ + seq!['"'] + escape_seq(s) + seq!['"', '\n'],
        ValueDataView::VMulti(items) => "str(7):"@ + seq!['"'] + multi_inner(items)
            + seq!['\\', '0', '"', '\n'],
        ValueDataView::VDword(d) => "dword:"@ + padded_radix_chars(d as nat, 16, 8) + seq!['\n'],
        ValueDataView::VQword(q) => "hex(b):"@ + hex_run(le_bytes(q as nat, 8), 5),
        ValueDataView::VBinary(b, ty) => if ty == 3 {
            "hex:"@ + hex_run(b, 4)
        } else {
            "hex("@ + radix_chars(ty as nat, 16) + "):"@ + hex_run(b, 6)
        },
    };
    head + body
}

#[verifier::rlimit(100)]
fn push_value(out: &mut Vec<char>, e: &crate::registry_key::ValueEntry)
    ensures
        final (out)@ == old(out)@ + render_value(e.value@),
{
    let v = &e.value;
    if v.name.as_str().is_empty() {
        push_str_chars(out, "@=");
    } else {
        out.push('"');
        let nc = str_chars(v.name.as_str());
        push_escaped(out, &nc);
        out.push('"');
        out.push('=');
    }
    match &v.data {
        crate::registry_value::RegistryValueData::String(s) => {
            out.push('"');
            let sc = str_chars(s.as_str());
            push_escaped(out, &sc);
            out.push('"');
            out.push('\n');
        },
        crate::registry_value::RegistryValueData::ExpandString(s) => {
            push_str_chars(out, "str(2):");
            out.push('"');
            let sc = str_chars(s.as_str());
            push_escaped(out, &sc);
            out.push('"');
            out.push('\n');
        },
        crate::registry_value::RegistryValueData::MultiString(items) => {
            push_str_chars(out, "str(7):");
            out.push('"');
            let ghost iv = Seq::new(items@.len(), |k: int| items@[k]@);
            let ghost base = out@;
            let mut i: usize = 0;
            proof {
                assert(iv.skip(0) =~= iv);
            }
            while i < items.len()
                invariant
                    i <= items@.len(),
                    iv == Seq::new(items@.len(), |k: int| items@[k]@),
                    iv.len() == items@.len(),
                    base + multi_inner(iv) =~= out@ + multi_inner(iv.skip(i as int)),
                decreases items@.len() - i,
            {
                proof {
                    assert(iv.skip(i as int)[0] == iv[i as int]);
                    assert(iv.skip(i as int).skip(1) =~= iv.skip(i as int + 1));
                    assert(items@[i as int]@ == iv[i as int]);
                }
                let sc = str_chars(items[i].as_str());
                push_escaped(out, &sc);
                if i + 1 < items.len() {
                    out.push('\\');
                    out.push('0');
                } else {
                    proof {
                        assert(iv.skip(i as int).len() == 1);
                        assert(multi_inner(iv.skip(i as int)) == escape_seq(iv[i as int]));
                        assert(multi_inner(iv.skip(i as int + 1)) =~= Seq::<char>::empty());
                    }
                }
                i += 1;
            }
            proof {
                assert(iv.skip(iv.len() as int) =~= Seq::<Seq<char>>::empty());
                assert(out@ =~= base + multi_inner(iv));
            }
            out.push('\\');
            out.push('0');
            out.push('"');
            out.push('\n');
        },
        crate::registry_value::RegistryValueData::Dword(d) => {
            push_str_chars(out, "dword:");
            let h = u64_to_radix_padded(*d as u64, 16, 8);
            push_chars(out, &h);
            out.push('\n');
        },
        crate::registry_value::RegistryValueData::Qword(q) => {
            push_str_chars(out, "hex(b):");
            let mut bs: Vec<u8> = Vec::new();
            crate::registry_value::push_le_bytes(*q, 8, &mut bs);
            push_hex_run(out, &bs, 5);
        },
        crate::registry_value::RegistryValueData::Binary(b, ty) => {
            if *ty == 3 {
                push_str_chars(out, "hex:");
                push_hex_run(out, b, 4);
            } else {
                push_str_chars(out, "hex(");
                let h = u64_to_radix(*ty as u64, 16);
                push_chars(out, &h);
                push_str_chars(out, "):");
                push_hex_run(out, b, 6);
            }
        },
    }
}


// ---------------------------------------------------------------------------
// Key blocks and the tree walk.
// ---------------------------------------------------------------------------
pub open spec fn render_values(vals: Seq<EntryView>) -> Seq<char>
    decreases vals.len(),
{
    if vals.len() == 0 {
        Seq::empty()
    } else {
        render_value(vals[0].value) + render_values(vals.skip(1))
    }
}

/// Whether a key contributes a block of its own: it has values, is a leaf,
/// or carries metadata.
pub open spec fn emits_block(k: KeyView) -> bool {
    k.values.len() > 0 || k.subkeys.len() == 0 || k.class_name is Some || k.is_symlink
}

/// One key block: the header line with POSIX seconds, the `#time=` line, the
/// metadata lines, then the value lines.
pub open spec fn render_block(k: KeyView, path: Seq<char>) -> Seq<char> {
    seq!['\n', '['] + path + seq![']', ' '] + radix_chars(
        spec_filetime_to_timestamp(k.modification_time) as nat,
        10,
    ) + seq!['\n'] + "#time="@ + radix_chars(k.modification_time as nat, 16) + seq!['\n'] + (
    match k.class_name {
        Some(c) => "#class="@ + seq!['"'] + escape_seq(c) + seq!['"', '\n'],
        None => Seq::empty(),
    }) + (if k.is_symlink {
        "#link"@ + seq!['\n']
    } else {
        Seq::empty()
    }) + render_values(k.values)
}

/// The display path of a child under `path`: escaped segments joined with
/// doubled backslashes.
pub open spec fn child_path(path: Seq<char>, root_here: bool, name: Seq<char>) -> Seq<char> {
    if root_here {
        escape_seq(name)
    } else {
        path + seq!['\\', '\\'] + escape_seq(name)
    }
}

/// A volatile key vanishes with its whole subtree; any other key emits its
/// block (when due) and then its children, in storage order.
pub open spec fn render_tree(k: KeyView, path: Seq<char>, root_here: bool) -> Seq<char>
    decreases k, 1int,
{
    if k.is_volatile {
        Seq::empty()
    } else {
        (if emits_block(k) {
            render_block(k, path)
        } else {
            Seq::empty()
        }) + render_children(k.subkeys, path, root_here)
    }
}

pub open spec fn render_children(s: Seq<KeyView>, path: Seq<char>, root_here: bool) -> Seq<char>
    decreases s, 2int,
{
    if s.len() == 0 {
        Seq::empty()
    } else {
        render_tree(s[0], child_path(path, root_here, s[0].name), false) + render_children(
            s.skip(1),
            path,
            root_here,
        )
    }
}

/// The whole stream: the format header, the optional relative base line, the
/// optional architecture line, then the depth-first walk from the root.
pub open spec fn write_spec(root: KeyView, base: Seq<char>, arch: Architecture) -> Seq<char> {
    "WINE REGISTRY Version 2"@ + seq!['\n'] + (if base.len() > 0 {
        ";; All keys relative to "@ + base + seq!['\n']
    } else {
        Seq::empty()
    }) + (match arch {
        Architecture::Win32 => seq!['\n'] + "#arch=win32"@ + seq!['\n'],
        Architecture::Win64 => seq!['\n'] + "#arch=win64"@ + seq!['\n'],
        Architecture::Unknown => Seq::empty(),
    }) + render_tree(root, Seq::empty(), true)
}

#[verifier::rlimit(100)]
fn push_tree(k: &RegistryKey, path: &Vec<char>, root_here: bool, out: &mut Vec<char>)
    requires
        k@.wf(),
    ensures
        final (out)@ == old(out)@ + render_tree(k@, path@, root_here),
    decreases *k,
{
    if k.is_volatile {
        return ;
    }
    let has_meta = match &k.class_name {
        Some(_) => true,
        None => k.is_symlink,
    };
    if k.values.len() > 0 || k.subkeys.len() == 0 || has_meta {
        out.push('\n');
        out.push('[');
        push_chars(out, path);
        out.push(']');
        out.push(' ');
        let secs = crate::registry_utils::filetime_to_timestamp(k.modification_time);
        let d = u64_to_radix(secs, 10);
        push_chars(out, &d);
        out.push('\n');
        push_str_chars(out, "#time=");
        let h = u64_to_radix(k.modification_time, 16);
        push_chars(out, &h);
        out.push('\n');
        match &k.class_name {
            Some(c) => {
                push_str_chars(out, "#class=");
                out.push('"');
                let cc = str_chars(c.as_str());
                push_escaped(out, &cc);
                out.push('"');
                out.push('\n');
            },
            None => {
            },
        }
        if k.is_symlink {
            push_str_chars(out, "#link");
            out.push('\n');
        }
        let ghost vals = k@.values;
        let ghost base0 = out@;
        let mut i: usize = 0;
        proof {
            assert(vals.skip(0) =~= vals);
        }
        while i < k.values.len()
            invariant
                i <= k.values@.len(),
                vals == k@.values,
                vals.len() == k.values@.len(),
                base0 + render_values(vals) =~= out@ + render_values(vals.skip(i as int)),
            decreases k.values@.len() - i,
        {
            proof {
                assert(vals.skip(i as int)[0] == vals[i as int]);
                assert(vals.skip(i as int).skip(1) =~= vals.skip(i as int + 1));
                assert(k.values@[i as int]@ == vals[i as int]);
            }
            push_value(out, &k.values[i]);
            i += 1;
        }
        proof {
            assert(vals.skip(vals.len() as int) =~= Seq::<EntryView>::empty());
            assert(out@ =~= base0 + render_values(vals));
            assert(out@ =~= old(out)@ + render_block(k@, path@));
        }
    }
    let ghost subs = k@.subkeys;
    let ghost base1 = out@;
    let mut j: usize = 0;
    proof {
        lemma_views_of(k.subkeys@);
        assert(subs.skip(0) =~= subs);
    }
    while j < k.subkeys.len()
        invariant
            k@.wf(),
            j <= k.subkeys@.len(),
            subs == k@.subkeys,
            subs.len() == k.subkeys@.len(),
            base1 + render_children(subs, path@, root_here) =~= out@ + render_children(
                subs.skip(j as int),
                path@,
                root_here,
            ),
        decreases k.subkeys@.len() - j,
    {
        proof {
            lemma_views_of(k.subkeys@);
            assert(subs.skip(j as int)[0] == subs[j as int]);
            assert(subs.skip(j as int).skip(1) =~= subs.skip(j as int + 1));
            assert(k.subkeys@[j as int]@ == subs[j as int]);
            assert(decreases_to!(*k => k.subkeys));
            assert(decreases_to!(k.subkeys => k.subkeys[j as int]));
        }
        let child = &k.subkeys[j];
        let mut cp: Vec<char> = Vec::new();
        if root_here {
            let nc = str_chars(child.name.as_str());
            push_escaped(&mut cp, &nc);
        } else {
            push_chars(&mut cp, path);
            cp.push('\\');
            cp.push('\\');
            let nc = str_chars(child.name.as_str());
            push_escaped(&mut cp, &nc);
        }
        proof {
            assert(cp@ =~= child_path(path@, root_here, subs[j as int].name));
        }
        push_tree(child, &cp, false, out);
        j += 1;
    }
    proof {
        assert(subs.skip(subs.len() as int) =~= Seq::<KeyView>::empty());
        assert(out@ =~= old(out)@ + render_tree(k@, path@, root_here));
    }
}

pub struct RegistryWriter {
    pub relative_base: String,
    pub architecture: Architecture,
}

impl RegistryWriter {
    /// A writer with no relative base and no architecture line.
    pub fn new() -> (r: Self)
        ensures
            r.relative_base@ == Seq::<char>::empty(),
            r.architecture == Architecture::Unknown,
    {
        RegistryWriter { relative_base: String::new(), architecture: Architecture::Unknown }
    }

    /// Render the tree to the deterministic textual stream.
    pub fn write_to_string(&self, root: &RegistryKey) -> (r: String)
        requires
            root@.wf(),
        ensures
            r@ == write_spec(root@, self.relative_base@, self.architecture),
    {
        let mut out: Vec<char> = Vec::new();
        push_str_chars(&mut out, "WINE REGISTRY Version 2");
        out.push('\n');
        if !self.relative_base.as_str().is_empty() {
            push_str_chars(&mut out, ";; All keys relative to ");
            push_str_chars(&mut out, self.relative_base.as_str());
            out.push('\n');
        }
        match self.architecture {
            Architecture::Win32 => {
                out.push('\n');
                push_str_chars(&mut out, "#arch=win32");
                out.push('\n');
            },
            Architecture::Win64 => {
                out.push('\n');
                push_str_chars(&mut out, "#arch=win64");
                out.push('\n');
            },
            Architecture::Unknown => {
            },
        }
        let path: Vec<char> = Vec::new();
        proof {
            assert(path@ =~= Seq::<char>::empty());
        }
        push_tree(root, &path, true, &mut out);
        proof {
            assert(out@ =~= write_spec(root@, self.relative_base@, self.architecture));
        }
        chars_to_string(&out)
    }
}

} // verus!
