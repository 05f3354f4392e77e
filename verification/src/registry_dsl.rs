use vstd::prelude::*;
use crate::architecture::Architecture;
use crate::registry_key::{RegistryKey, KeyView, split_path, segs_view, split_path_chars, MetaUpdate};
use crate::registry_value::{RegistryValue, RegistryValueData, ValueView, ValueDataView};
use crate::registry_writer::{RegistryWriter, write_spec};
use crate::registry_utils::set_current_time_recursive;
use crate::text::str_chars;

verus! {

broadcast use vstd::std_specs::vec::group_vec_axioms;

// ---------------------------------------------------------------------------
// A built or loaded registry: the tree plus the file-level annotations.
// ---------------------------------------------------------------------------
pub struct RegistryResult {
    pub root_key: RegistryKey,
    pub relative_base: String,
    pub architecture: Architecture,
}

impl RegistryResult {
    /// Render the tree with this registry's annotations.
    pub fn write_to_string(&self) -> (r: String)
        requires
            self.root_key@.wf(),
        ensures
            r@ == write_spec(self.root_key@, self.relative_base@, self.architecture),
    {
        let writer = RegistryWriter {
            relative_base: self.relative_base.clone(),
            architecture: self.architecture,
        };
        writer.write_to_string(&self.root_key)
    }

    /// Stamp the whole tree with the current wall-clock FILETIME.
    pub fn update_times(&mut self)
        requires
            old(self).root_key@.wf(),
        ensures
            exists|t: u64|
                final (self).root_key@ == crate::registry_key::with_time_all(
                    old(self).root_key@,
                    t,
                ),
            final (self).root_key@.wf(),
            final (self).relative_base == old(self).relative_base,
            final (self).architecture == old(self).architecture,
    {
        set_current_time_recursive(&mut self.root_key);
    }

    /// Open a builder cursor at the root.
    pub fn modify(self) -> (r: RegistryKeyDsl)
        requires
            self.root_key@.wf(),
        ensures
            r.inv(),
            r.root@ == self.root_key@,
            r.path@.len() == 0,
            r.relative_base == self.relative_base,
            r.architecture == self.architecture,
    {
        let path: Vec<Vec<char>> = Vec::new();
        proof {
            assert(segs_view(path@) =~= Seq::<Seq<char>>::empty());
        }
        RegistryKeyDsl {
            root: self.root_key,
            path,
            relative_base: self.relative_base,
            architecture: self.architecture,
        }
    }

    /// A deep copy of the key that `path` resolves to.
    pub fn get(&self, path: &str) -> (r: Option<RegistryKey>)
        requires
            self.root_key@.wf(),
        ensures
            r is Some <==> self.root_key@.path_exists(split_path(path@)),
            r is Some ==> Some(r.unwrap()@) == self.root_key@.find_path(split_path(path@))
                && r.unwrap()@.wf(),
    {
        match self.root_key.find_key(path) {
            Some(k) => Some(k.duplicate()),
            None => None,
        }
    }

    /// Create the path and open a builder cursor there.
    pub fn invoke(self, path: &str) -> (r: RegistryKeyDsl)
        requires
            self.root_key@.wf(),
        ensures
            r.inv(),
            r.root@ == self.root_key@.create_path(split_path(path@), true),
            segs_view(r.path@) == split_path(path@),
            r.relative_base == self.relative_base,
            r.architecture == self.architecture,
    {
        let mut root = self.root_key;
        let p = str_chars(path);
        let segs = split_path_chars(&p);
        proof {
            assert(segs_view(segs@).skip(0) =~= split_path(path@));
        }
        root.create_segments(&segs, 0, true);
        RegistryKeyDsl {
            root,
            path: segs,
            relative_base: self.relative_base,
            architecture: self.architecture,
        }
    }
}

// ---------------------------------------------------------------------------
// The builder: a cursor into an owned tree.  Every mutation is a path
// operation on the owned root; a missing cursor path makes a mutation a
// no-op, exactly as the path operations specify.
// ---------------------------------------------------------------------------
pub struct RegistryKeyDsl {
    pub root: RegistryKey,
    pub path: Vec<Vec<char>>,
    pub relative_base: String,
    pub architecture: Architecture,
}

impl RegistryKeyDsl {
    /// The cursor's tree stays well-formed and its path has no empty
    /// segments.
    pub open spec fn inv(self) -> bool {
        self.root@.wf() && (forall|j: int|
            0 <= j < self.path@.len() ==> (#[trigger] self.path@[j])@.len() > 0)
    }

    /// Descend (creating segments as needed) and return the deeper cursor.
    pub fn key(self, path: &str) -> (r: RegistryKeyDsl)
        requires
            self.inv(),
        ensures
            r.inv(),
            r.relative_base == self.relative_base,
            r.architecture == self.architecture,
            segs_view(r.path@) == segs_view(self.path@) + split_path(path@),
            r.root@ == self.root@.create_path(segs_view(r.path@), true),
    {
        let p = str_chars(path);
        let segs = split_path_chars(&p);
        let mut full = self.path;
        let mut i: usize = 0;
        let ghost basev = segs_view(full@);
        while i < segs.len()
            invariant
                i <= segs@.len(),
                segs_view(segs@) == split_path(path@),
                segs@.len() == split_path(path@).len(),
                segs_view(full@) =~= basev + segs_view(segs@).take(i as int),
                forall|j: int| 0 <= j < segs@.len() ==> (#[trigger] segs@[j])@.len() > 0,
                forall|j: int| 0 <= j < full@.len() ==> (#[trigger] full@[j])@.len() > 0,
            decreases segs@.len() - i,
        {
            let c = crate::text::sub_chars(&segs[i], 0, segs[i].len());
            proof {
                assert(c@ =~= segs@[i as int]@);
            }
            let ghost prev = full@;
            full.push(c);
            proof {
                assert(segs_view(full@) =~= segs_view(prev).push(segs@[i as int]@));
                assert(segs_view(segs@).take(i as int + 1) =~= segs_view(segs@).take(
                    i as int,
                ).push(segs@[i as int]@));
                assert(segs_view(full@) =~= basev + segs_view(segs@).take(i as int + 1));
            }
            i += 1;
        }
        proof {
            assert(segs_view(segs@).take(segs@.len() as int) =~= split_path(path@));
        }
        let mut root = self.root;
        proof {
            assert(segs_view(full@).skip(0) =~= segs_view(full@));
        }
        root.create_segments(&full, 0, true);
        RegistryKeyDsl {
            root,
            path: full,
            relative_base: self.relative_base,
            architecture: self.architecture,
        }
    }

    fn set_meta(&mut self, upd: MetaUpdate)
        requires
            old(self).inv(),
        ensures
            final (self).inv(),
            final (self).root@ == old(self).root@.meta_at_spec(segs_view(old(self).path@), upd@),
            final (self).path == old(self).path,
            final (self).relative_base == old(self).relative_base,
            final (self).architecture == old(self).architecture,
    {
        let path = crate::text::sub_segs(&self.path);
        proof {
            assert(segs_view(path@) =~= segs_view(self.path@));
            assert(segs_view(path@).skip(0) =~= segs_view(self.path@));
        }
        self.root.update_meta_at(&path, 0, upd);
    }

    /// Overwrite the class name of the key under the cursor.
    pub fn class_name(&mut self, name: Option<String>)
        requires
            old(self).inv(),
        ensures
            final (self).inv(),
            final (self).root@ == old(self).root@.meta_at_spec(
                segs_view(old(self).path@),
                crate::registry_key::MetaUpdateView::ClassName(
                    crate::registry_comparator::opt_view(name),
                ),
            ),
            final (self).path == old(self).path,
            final (self).relative_base == old(self).relative_base,
            final (self).architecture == old(self).architecture,
    {
        self.set_meta(MetaUpdate::ClassName(name));
    }

    pub fn is_symlink(&mut self, v: bool)
        requires
            old(self).inv(),
        ensures
            final (self).inv(),
            final (self).root@ == old(self).root@.meta_at_spec(
                segs_view(old(self).path@),
                crate::registry_key::MetaUpdateView::Symlink(v),
            ),
            final (self).path == old(self).path,
            final (self).relative_base == old(self).relative_base,
            final (self).architecture == old(self).architecture,
    {
        self.set_meta(MetaUpdate::Symlink(v));
    }

    pub fn is_volatile(&mut self, v: bool)
        requires
            old(self).inv(),
        ensures
            final (self).inv(),
            final (self).root@ == old(self).root@.meta_at_spec(
                segs_view(old(self).path@),
                crate::registry_key::MetaUpdateView::Volatile(v),
            ),
            final (self).path == old(self).path,
            final (self).relative_base == old(self).relative_base,
            final (self).architecture == old(self).architecture,
    {
        self.set_meta(MetaUpdate::Volatile(v));
    }

    fn put(&mut self, name: &str, data: RegistryValueData)
        requires
            old(self).inv(),
        ensures
            final (self).inv(),
            final (self).root@ == old(self).root@.set_value_at_spec(
                segs_view(old(self).path@),
                name@,
                ValueView { name: name@, data: data@ },
                true,
            ),
            final (self).path == old(self).path,
            final (self).relative_base == old(self).relative_base,
            final (self).architecture == old(self).architecture,
    {
        let path = crate::text::sub_segs(&self.path);
        proof {
            assert(segs_view(path@) =~= segs_view(self.path@));
            assert(segs_view(path@).skip(0) =~= segs_view(self.path@));
        }
        let value = RegistryValue::new(name, data);
        self.root.set_value_at(&path, 0, name, value, true);
    }

    /// Set a string value under the cursor.
    pub fn value(&mut self, name: &str, value: &str)
        requires
            old(self).inv(),
        ensures
            final (self).inv(),
            final (self).root@ == old(self).root@.set_value_at_spec(
                segs_view(old(self).path@),
                name@,
                ValueView { name: name@, data: ValueDataView::VString(value@) },
                true,
            ),
            final (self).path == old(self).path,
            final (self).relative_base == old(self).relative_base,
            final (self).architecture == old(self).architecture,
    {
        self.put(name, RegistryValueData::String(value.to_owned()));
    }

    pub fn dword(&mut self, name: &str, value: u32)
        requires
            old(self).inv(),
        ensures
            final (self).inv(),
            final (self).root@ == old(self).root@.set_value_at_spec(
                segs_view(old(self).path@),
                name@,
                ValueView { name: name@, data: ValueDataView::VDword(value) },
                true,
            ),
            final (self).path == old(self).path,
            final (self).relative_base == old(self).relative_base,
            final (self).architecture == old(self).architecture,
    {
        self.put(name, RegistryValueData::Dword(value));
    }

    pub fn qword(&mut self, name: &str, value: u64)
        requires
            old(self).inv(),
        ensures
            final (self).inv(),
            final (self).root@ == old(self).root@.set_value_at_spec(
                segs_view(old(self).path@),
                name@,
                ValueView { name: name@, data: ValueDataView::VQword(value) },
                true,
            ),
            final (self).path == old(self).path,
            final (self).relative_base == old(self).relative_base,
            final (self).architecture == old(self).architecture,
    {
        self.put(name, RegistryValueData::Qword(value));
    }

    pub fn binary(&mut self, name: &str, data: &Vec<u8>)
        requires
            old(self).inv(),
        ensures
            final (self).inv(),
            final (self).root@ == old(self).root@.set_value_at_spec(
                segs_view(old(self).path@),
                name@,
                ValueView { name: name@, data: ValueDataView::VBinary(data@, 3) },
                true,
            ),
            final (self).path == old(self).path,
            final (self).relative_base == old(self).relative_base,
            final (self).architecture == old(self).architecture,
    {
        let mut copy: Vec<u8> = Vec::new();
        let mut i: usize = 0;
        while i < data.len()
            invariant
                i <= data@.len(),
                copy@ =~= data@.take(i as int),
            decreases data@.len() - i,
        {
            copy.push(data[i]);
            proof {
                assert(copy@ =~= data@.take(i as int + 1));
            }
            i += 1;
        }
        proof {
            assert(copy@ =~= data@);
        }
        self.put(name, RegistryValueData::Binary(copy, 3));
    }

    pub fn expand_string(&mut self, name: &str, value: &str)
        requires
            old(self).inv(),
        ensures
            final (self).inv(),
            final (self).root@ == old(self).root@.set_value_at_spec(
                segs_view(old(self).path@),
                name@,
                ValueView { name: name@, data: ValueDataView::VExpand(value@) },
                true,
            ),
            final (self).path == old(self).path,
            final (self).relative_base == old(self).relative_base,
            final (self).architecture == old(self).architecture,
    {
        self.put(name, RegistryValueData::ExpandString(value.to_owned()));
    }

    pub fn multi_string(&mut self, name: &str, values: Vec<String>)
        requires
            old(self).inv(),
        ensures
            final (self).inv(),
            final (self).root@ == old(self).root@.set_value_at_spec(
                segs_view(old(self).path@),
                name@,
                ValueView {
                    name: name@,
                    data: ValueDataView::VMulti(Seq::new(values@.len(), |i: int| values@[i]@)),
                },
                true,
            ),
            final (self).path == old(self).path,
            final (self).relative_base == old(self).relative_base,
            final (self).architecture == old(self).architecture,
    {
        self.put(name, RegistryValueData::MultiString(values));
    }

    /// Delete a value under the cursor; reports whether one was removed.
    pub fn delete_value(&mut self, name: &str) -> (removed: bool)
        requires
            old(self).inv(),
        ensures
            final (self).inv(),
            final (self).root@ == old(self).root@.delete_value_at_spec(
                segs_view(old(self).path@),
                name@,
            ),
            removed == old(self).root@.value_exists_at(segs_view(old(self).path@), name@),
            final (self).path == old(self).path,
            final (self).relative_base == old(self).relative_base,
            final (self).architecture == old(self).architecture,
    {
        let path = crate::text::sub_segs(&self.path);
        proof {
            assert(segs_view(path@) =~= segs_view(self.path@));
            assert(segs_view(path@).skip(0) =~= segs_view(self.path@));
        }
        self.root.delete_value_at(&path, 0, name)
    }

    /// Delete a subkey under the cursor; reports whether one was removed.
    pub fn delete_key(&mut self, name: &str, recursive: bool) -> (removed: bool)
        requires
            old(self).inv(),
        ensures
            final (self).inv(),
            final (self).root@ == old(self).root@.delete_subkey_at_spec(
                segs_view(old(self).path@),
                name@,
                recursive,
            ),
            removed == old(self).root@.subkey_removable_at(
                segs_view(old(self).path@),
                name@,
                recursive,
            ),
            final (self).path == old(self).path,
            final (self).relative_base == old(self).relative_base,
            final (self).architecture == old(self).architecture,
    {
        let path = crate::text::sub_segs(&self.path);
        proof {
            assert(segs_view(path@) =~= segs_view(self.path@));
            assert(segs_view(path@).skip(0) =~= segs_view(self.path@));
        }
        self.root.delete_subkey_at(&path, 0, name, recursive)
    }

    /// Create the path below the cursor and wipe that key's contents; the
    /// cursor lands on the (now empty) key.
    pub fn replace_key(self, path: &str) -> (r: RegistryKeyDsl)
        requires
            self.inv(),
        ensures
            r.inv(),
            r.relative_base == self.relative_base,
            r.architecture == self.architecture,
            segs_view(r.path@) == segs_view(self.path@) + split_path(path@),
            r.root@ == self.root@.create_path(segs_view(self.path@) + split_path(path@), true)
                .clear_at_spec(segs_view(self.path@) + split_path(path@)),
    {
        let mut d = self.key(path);
        let segs = crate::text::sub_segs(&d.path);
        proof {
            assert(segs_view(segs@) =~= segs_view(d.path@));
            assert(segs_view(segs@).skip(0) =~= segs_view(d.path@));
        }
        d.root.clear_at(&segs, 0);
        d
    }

    /// Stamp the subtree with the current time.
    pub fn update_time(&mut self)
        requires
            old(self).inv(),
        ensures
            final (self).inv(),
            exists|t: u64|
                final (self).root@ == crate::registry_key::with_time_all(old(self).root@, t),
            final (self).path == old(self).path,
            final (self).relative_base == old(self).relative_base,
            final (self).architecture == old(self).architecture,
    {
        set_current_time_recursive(&mut self.root);
    }

    /// A deep copy of the key under the cursor; a fresh root if the cursor's
    /// path no longer resolves.
    pub fn get_key(&self) -> (r: RegistryKey)
        requires
            self.inv(),
        ensures
            self.root@.path_exists(segs_view(self.path@)) ==> Some(r@) == self.root@.find_path(
                segs_view(self.path@),
            ),
            r@.wf(),
    {
        let segs = crate::text::sub_segs(&self.path);
        proof {
            assert(segs_view(segs@) =~= segs_view(self.path@));
            assert(segs_view(segs@).skip(0) =~= segs_view(self.path@));
        }
        match self.root.find_key_segs(&segs, 0) {
            Some(k) => k.duplicate(),
            None => RegistryKey::create_root(),
        }
    }

    /// Finish: the tree with the annotations carried along.
    pub fn build(self) -> (r: RegistryResult)
        requires
            self.inv(),
        ensures
            r.root_key@ == self.root@,
            r.root_key@.wf(),
            r.relative_base == self.relative_base,
            r.architecture == self.architecture,
    {
        RegistryResult {
            root_key: self.root,
            relative_base: self.relative_base,
            architecture: self.architecture,
        }
    }
}

// ---------------------------------------------------------------------------
// The context: an empty tree plus the annotations, turned into cursors.
// ---------------------------------------------------------------------------
pub struct RegistryDslContext {
    pub root: RegistryKey,
    pub relative_base: String,
    pub architecture: Architecture,
}

impl RegistryDslContext {
    /// An empty registry under construction.
    pub fn new() -> (r: Self)
        ensures
            r.root@ == KeyView::fresh(Seq::<char>::empty(), false),
            r.root@.wf(),
            r.relative_base@ == Seq::<char>::empty(),
            r.architecture == Architecture::Unknown,
    {
        RegistryDslContext {
            root: RegistryKey::create_root(),
            relative_base: String::new(),
            architecture: Architecture::Unknown,
        }
    }

    /// A cursor at the root.
    pub fn root(self) -> (r: RegistryKeyDsl)
        requires
            self.root@.wf(),
        ensures
            r.inv(),
            r.root@ == self.root@,
            r.path@.len() == 0,
            r.relative_base == self.relative_base,
            r.architecture == self.architecture,
    {
        let path: Vec<Vec<char>> = Vec::new();
        RegistryKeyDsl {
            root: self.root,
            path,
            relative_base: self.relative_base,
            architecture: self.architecture,
        }
    }

    /// Create a path and open a cursor there.
    pub fn key(self, path: &str) -> (r: RegistryKeyDsl)
        requires
            self.root@.wf(),
        ensures
            r.inv(),
            r.root@ == self.root@.create_path(split_path(path@), true),
            segs_view(r.path@) == split_path(path@),
            r.relative_base == self.relative_base,
            r.architecture == self.architecture,
    {
        let mut root = self.root;
        let p = str_chars(path);
        let segs = split_path_chars(&p);
        proof {
            assert(segs_view(segs@).skip(0) =~= split_path(path@));
        }
        root.create_segments(&segs, 0, true);
        RegistryKeyDsl {
            root,
            path: segs,
            relative_base: self.relative_base,
            architecture: self.architecture,
        }
    }

    /// Finish building.
    pub fn build(self) -> (r: RegistryResult)
        requires
            self.root@.wf(),
        ensures
            r.root_key@ == self.root@,
            r.root_key@.wf(),
            r.relative_base == self.relative_base,
            r.architecture == self.architecture,
    {
        RegistryResult {
            root_key: self.root,
            relative_base: self.relative_base,
            architecture: self.architecture,
        }
    }
}

/// Start a registry under construction.
pub fn registry() -> (r: RegistryDslContext)
    ensures
        r.root@ == KeyView::fresh(Seq::<char>::empty(), false),
        r.root@.wf(),
        r.relative_base@ == Seq::<char>::empty(),
        r.architecture == Architecture::Unknown,
{
    RegistryDslContext::new()
}

/// Open a cursor at the root of an existing registry.
pub fn modify_registry(reg: RegistryResult) -> (r: RegistryKeyDsl)
    requires
        reg.root_key@.wf(),
    ensures
        r.inv(),
        r.root@ == reg.root_key@,
        r.path@.len() == 0,
        r.relative_base == reg.relative_base,
        r.architecture == reg.architecture,
{
    reg.modify()
}

} // verus!
