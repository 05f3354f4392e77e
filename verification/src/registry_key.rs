use vstd::prelude::*;
use crate::text::{fold_seq, lex_lt, lex_cmp, fold_chars, str_chars, chars_eq};
use crate::registry_value::{RegistryValue, ValueView};

verus! {

broadcast use vstd::std_specs::vec::group_vec_axioms;



// ---------------------------------------------------------------------------
// The registry tree.  A key owns its subkeys and its values outright; both
// collections are kept sorted by the ASCII-folded name, which is the
// deterministic traversal order of the tree.
// ---------------------------------------------------------------------------

/// One named value slot of a key: the storage key (the ASCII-folded name the
/// value was filed under) and the value record itself.
pub struct ValueEntry {
    pub key: String,
    pub value: RegistryValue,
}

pub struct RegistryKey {
    pub name: String,
    pub class_name: Option<String>,
    pub modification_time: u64,
    pub is_symlink: bool,
    pub is_volatile: bool,
    pub is_dirty: bool,
    pub subkeys: Vec<RegistryKey>,
    pub values: Vec<ValueEntry>,
}

// ---------------------------------------------------------------------------
// Views.
// ---------------------------------------------------------------------------
pub struct EntryView {
    pub key: Seq<char>,
    pub value: ValueView,
}

pub struct KeyView {
    pub name: Seq<char>,
    pub class_name: Option<Seq<char>>,
    pub modification_time: u64,
    pub is_symlink: bool,
    pub is_volatile: bool,
    pub is_dirty: bool,
    pub subkeys: Seq<KeyView>,
    pub values: Seq<EntryView>,
}

impl View for ValueEntry {
    type V = EntryView;

    open spec fn view(&self) -> EntryView {
        EntryView { key: self.key@, value: self.value@ }
    }
}

impl DeepView for ValueEntry {
    type V = EntryView;

    open spec fn deep_view(&self) -> EntryView {
        self.view()
    }
}

pub open spec fn opt_string_view(s: Option<String>) -> Option<Seq<char>> {
    match s {
        Some(s) => Some(s@),
        None => None,
    }
}

impl RegistryKey {
    pub open spec fn spec_view(self) -> KeyView
        decreases self,
    {
        KeyView {
            name: self.name@,
            class_name: opt_string_view(self.class_name),
            modification_time: self.modification_time,
            is_symlink: self.is_symlink,
            is_volatile: self.is_volatile,
            is_dirty: self.is_dirty,
            subkeys: views_of(self.subkeys@),
            values: Seq::new(self.values@.len(), |i: int| self.values@[i]@),
        }
    }
}

pub open spec fn views_of(s: Seq<RegistryKey>) -> Seq<KeyView>
    decreases s,
{
    if s.len() == 0 {
        Seq::empty()
    } else {
        seq![s[0].spec_view()] + views_of(s.skip(1))
    }
}

pub proof fn lemma_views_of(s: Seq<RegistryKey>)
    ensures
        views_of(s).len() == s.len(),
        forall|i: int| 0 <= i < s.len() ==> #[trigger] views_of(s)[i] == s[i].spec_view(),
    decreases s,
{
    if s.len() > 0 {
        lemma_views_of(s.skip(1));
        assert forall|i: int| 0 <= i < s.len() implies #[trigger] views_of(s)[i]
            == s[i].spec_view() by {
            if i > 0 {
                assert(views_of(s)[i] == views_of(s.skip(1))[i - 1]);
                assert(s.skip(1)[i - 1] == s[i]);
            }
        }
    }
}

impl View for RegistryKey {
    type V = KeyView;

    open spec fn view(&self) -> KeyView {
        self.spec_view()
    }
}

impl DeepView for RegistryKey {
    type V = KeyView;

    open spec fn deep_view(&self) -> KeyView {
        self.spec_view()
    }
}

// ---------------------------------------------------------------------------
// Well-formedness: both collections strictly sorted by folded name, all
// subkey names non-empty, all value slots filed under their folded key, and
// every subkey well-formed in turn.
// ---------------------------------------------------------------------------
pub open spec fn sorted_subkeys(s: Seq<KeyView>) -> bool {
    forall|i: int, j: int|
        0 <= i < j < s.len() ==> lex_lt(
            fold_seq((#[trigger] s[i]).name),
            fold_seq((#[trigger] s[j]).name),
        )
}

pub open spec fn sorted_entries(s: Seq<EntryView>) -> bool {
    forall|i: int, j: int|
        0 <= i < j < s.len() ==> lex_lt((#[trigger] s[i]).key, (#[trigger] s[j]).key)
}

impl KeyView {
    pub open spec fn wf(self) -> bool
        decreases self,
    {
        &&& sorted_subkeys(self.subkeys)
        &&& sorted_entries(self.values)
        &&& (forall|i: int|
            0 <= i < self.values.len() ==> (#[trigger] self.values[i]).key == fold_seq(
                self.values[i].key,
            ))
        &&& (forall|i: int|
            0 <= i < self.subkeys.len() ==> (#[trigger] self.subkeys[i]).name.len() > 0)
        &&& (forall|i: int| 0 <= i < self.subkeys.len() ==> (#[trigger] self.subkeys[i]).wf())
    }

    // -- lookups over the view --
    pub open spec fn has_subkey(self, n: Seq<char>) -> bool {
        exists|i: int|
            0 <= i < self.subkeys.len() && fold_seq((#[trigger] self.subkeys[i]).name) == fold_seq(
                n,
            )
    }

    pub open spec fn subkey_index(self, n: Seq<char>) -> int {
        choose|i: int|
            0 <= i < self.subkeys.len() && fold_seq((#[trigger] self.subkeys[i]).name) == fold_seq(
                n,
            )
    }

    pub open spec fn subkey_of(self, n: Seq<char>) -> KeyView {
        self.subkeys[self.subkey_index(n)]
    }

    pub open spec fn has_value(self, n: Seq<char>) -> bool {
        exists|i: int|
            0 <= i < self.values.len() && (#[trigger] self.values[i]).key == fold_seq(n)
    }

    pub open spec fn value_index(self, n: Seq<char>) -> int {
        choose|i: int|
            0 <= i < self.values.len() && (#[trigger] self.values[i]).key == fold_seq(n)
    }

    pub open spec fn value_of(self, n: Seq<char>) -> ValueView {
        self.values[self.value_index(n)].value
    }

    /// The view of a fresh, empty key.
    pub open spec fn fresh(name: Seq<char>, dirty: bool) -> KeyView {
        KeyView {
            name: name,
            class_name: None,
            modification_time: 0,
            is_symlink: false,
            is_volatile: false,
            is_dirty: dirty,
            subkeys: Seq::empty(),
            values: Seq::empty(),
        }
    }
}

/// In a well-formed key no two subkeys share a folded name, so a lookup's
/// witness index is unique.
pub proof fn lemma_subkey_index_unique(k: KeyView, i: int, j: int)
    requires
        sorted_subkeys(k.subkeys),
        0 <= i < k.subkeys.len(),
        0 <= j < k.subkeys.len(),
        fold_seq(k.subkeys[i].name) == fold_seq(k.subkeys[j].name),
    ensures
        i == j,
{
    if i < j {
        crate::text::lemma_lex_trichotomy(fold_seq(k.subkeys[i].name), fold_seq(k.subkeys[j].name));
    }
    if j < i {
        crate::text::lemma_lex_trichotomy(fold_seq(k.subkeys[j].name), fold_seq(k.subkeys[i].name));
    }
}

pub proof fn lemma_value_index_unique(k: KeyView, i: int, j: int)
    requires
        sorted_entries(k.values),
        0 <= i < k.values.len(),
        0 <= j < k.values.len(),
        k.values[i].key == k.values[j].key,
    ensures
        i == j,
{
    if i < j {
        crate::text::lemma_lex_trichotomy(k.values[i].key, k.values[j].key);
    }
    if j < i {
        crate::text::lemma_lex_trichotomy(k.values[j].key, k.values[i].key);
    }
}

// ---------------------------------------------------------------------------
// Executable operations.
// ---------------------------------------------------------------------------
impl RegistryKey {
    /// The root of a new tree: empty name, clean, no children.
    pub fn create_root() -> (r: Self)
        ensures
            r@ == KeyView::fresh(Seq::<char>::empty(), false),
            r@.wf(),
    {
        let r = RegistryKey {
            name: String::new(),
            class_name: None,
            modification_time: 0,
            is_symlink: false,
            is_volatile: false,
            is_dirty: false,
            subkeys: Vec::new(),
            values: Vec::new(),
        };
        proof {
            lemma_views_of(r.subkeys@);
            assert(r@.subkeys =~= Seq::<KeyView>::empty());
            assert(r@.values =~= Seq::<EntryView>::empty());
            assert(r@ == KeyView::fresh(Seq::<char>::empty(), false));
        }
        r
    }

    pub fn subkeys(&self) -> (r: &Vec<RegistryKey>)
        ensures
            r == &self.subkeys,
            r.deep_view() == self@.subkeys,
    {
        proof {
            lemma_views_of(self.subkeys@);
            assert(self.subkeys.deep_view() =~= self@.subkeys);
        }
        &self.subkeys
    }

    pub fn values(&self) -> (r: &Vec<ValueEntry>)
        ensures
            r == &self.values,
            r.deep_view() == self@.values,
    {
        proof {
            assert(self.values.deep_view() =~= self@.values);
        }
        &self.values
    }

    /// Scan for the subkey filed under the folded form of `n`.
    fn find_subkey_idx(&self, n: &Vec<char>) -> (r: Option<usize>)
        ensures
            match r {
                Some(i) => i < self.subkeys@.len() && fold_seq(self@.subkeys[i as int].name)
                    == fold_seq(n@) && self@.has_subkey(n@),
                None => !self@.has_subkey(n@),
            },
    {

        proof {
            lemma_views_of(self.subkeys@);
        }
        let target = fold_chars(n);
        let mut i: usize = 0;
        while i < self.subkeys.len()
            invariant
                target@ == fold_seq(n@),
                i <= self.subkeys@.len(),
                self@.subkeys.len() == self.subkeys@.len(),
                forall|j: int|
                    0 <= j < i ==> fold_seq((#[trigger] self@.subkeys[j]).name) != fold_seq(n@),
            decreases self.subkeys@.len() - i,
        {
            proof {
                lemma_views_of(self.subkeys@);
                assert(self@.subkeys[i as int] == self.subkeys@[i as int]@);
            }
            let fname = {
                let cs = str_chars(self.subkeys[i].name.as_str());
                fold_chars(&cs)
            };
            if chars_eq(&fname, &target) {
                return Some(i);
            }
            i += 1;
        }
        None
    }

    fn find_value_idx(&self, n: &Vec<char>) -> (r: Option<usize>)
        ensures
            match r {
                Some(i) => i < self.values@.len() && self@.values[i as int].key == fold_seq(n@)
                    && self@.has_value(n@),
                None => !self@.has_value(n@),
            },
    {
        let target = fold_chars(n);
        let mut i: usize = 0;
        while i < self.values.len()
            invariant
                target@ == fold_seq(n@),
                i <= self.values@.len(),
                forall|j: int| 0 <= j < i ==> (#[trigger] self@.values[j]).key != fold_seq(n@),
            decreases self.values@.len() - i,
        {
            proof {
                assert(self@.values[i as int] == self.values@[i as int]@);
            }
            let kc = str_chars(self.values[i].key.as_str());
            if chars_eq(&kc, &target) {
                return Some(i);
            }
            i += 1;
        }
        None
    }

    /// Case-insensitive subkey lookup.
    pub fn get_subkey(&self, name: &str) -> (r: Option<&RegistryKey>)
        requires
            self@.wf(),
        ensures
            r is Some <==> self@.has_subkey(name@),
            r is Some ==> r.unwrap()@ == self@.subkey_of(name@),
    {
        let n = str_chars(name);
        match self.find_subkey_idx(&n) {
            Some(i) => {
                proof {
                    lemma_views_of(self.subkeys@);
                    assert(self@.has_subkey(name@));
                    let j = self@.subkey_index(name@);
                    assert(0 <= j < self@.subkeys.len() && fold_seq(self@.subkeys[j].name)
                        == fold_seq(name@));
                    lemma_subkey_index_unique(self@, i as int, j);
                    assert(self.subkeys@[i as int]@ == self@.subkeys[i as int]);
                }
                Some(&self.subkeys[i])
            },
            None => None,
        }
    }

    /// Case-insensitive value lookup.
    pub fn get_value(&self, name: &str) -> (r: Option<&RegistryValue>)
        requires
            self@.wf(),
        ensures
            r is Some <==> self@.has_value(name@),
            r is Some ==> r.unwrap()@ == self@.value_of(name@),
    {
        let n = str_chars(name);
        match self.find_value_idx(&n) {
            Some(i) => {
                proof {
                    assert(self@.has_value(name@));
                    let j = self@.value_index(name@);
                    assert(0 <= j < self@.values.len() && self@.values[j].key == fold_seq(name@));
                    lemma_value_index_unique(self@, i as int, j);
                    assert(self.values@[i as int]@ == self@.values[i as int]);
                }
                Some(&self.values[i].value)
            },
            None => None,
        }
    }

    /// A deep copy whose view is the original's.
    pub fn duplicate(&self) -> (r: Self)
        ensures
            r@ == self@,
        decreases *self,
    {
        let mut subkeys: Vec<RegistryKey> = Vec::new();
        let mut i: usize = 0;
        proof {
            lemma_views_of(self.subkeys@);
        }
        while i < self.subkeys.len()
            invariant
                i <= self.subkeys@.len(),
                subkeys@.len() == i,
                self@.subkeys.len() == self.subkeys@.len(),
                forall|j: int| 0 <= j < i ==> (#[trigger] subkeys@[j])@ == self@.subkeys[j],
            decreases self.subkeys@.len() - i,
        {
            proof {
                lemma_views_of(self.subkeys@);
                assert(decreases_to!(*self => self.subkeys));
                assert(decreases_to!(self.subkeys => self.subkeys[i as int]));
            }
            let c = self.subkeys[i].duplicate();
            subkeys.push(c);
            i += 1;
        }
        let mut values: Vec<ValueEntry> = Vec::new();
        let mut j: usize = 0;
        while j < self.values.len()
            invariant
                j <= self.values@.len(),
                values@.len() == j,
                forall|k: int| 0 <= k < j ==> (#[trigger] values@[k])@ == self@.values[k],
            decreases self.values@.len() - j,
        {
            let e = ValueEntry {
                key: self.values[j].key.clone(),
                value: self.values[j].value.duplicate(),
            };
            values.push(e);
            j += 1;
        }
        let r = RegistryKey {
            name: self.name.clone(),
            class_name: match &self.class_name {
                Some(s) => Some(s.clone()),
                None => None,
            },
            modification_time: self.modification_time,
            is_symlink: self.is_symlink,
            is_volatile: self.is_volatile,
            is_dirty: self.is_dirty,
            subkeys,
            values,
        };
        proof {
            lemma_views_of(subkeys@);
            lemma_views_of(self.subkeys@);
            assert(r@.subkeys =~= self@.subkeys);
            assert(r@.values =~= self@.values);
            assert(r@ == self@);
        }
        r
    }
}


// ---------------------------------------------------------------------------
// Sorted-collection operations at the view level.  These recursive
// definitions are the reference semantics of every mutation; the executable
// code is proved to produce exactly these sequences.
// ---------------------------------------------------------------------------

/// Insert a value slot into a sorted run of slots: an existing slot with the
/// same key is replaced in place, otherwise the new slot lands at its sorted
/// position.
pub open spec fn insert_entry(s: Seq<EntryView>, e: EntryView) -> Seq<EntryView>
    decreases s.len(),
{
    if s.len() == 0 {
        seq![e]
    } else if e.key == s[0].key {
        seq![e] + s.skip(1)
    } else if lex_lt(e.key, s[0].key) {
        seq![e] + s
    } else {
        seq![s[0]] + insert_entry(s.skip(1), e)
    }
}

/// Remove the value slot with the given key, if any.
pub open spec fn remove_entry(s: Seq<EntryView>, key: Seq<char>) -> Seq<EntryView>
    decreases s.len(),
{
    if s.len() == 0 {
        s
    } else if s[0].key == key {
        s.skip(1)
    } else {
        seq![s[0]] + remove_entry(s.skip(1), key)
    }
}

/// Insert a subkey under its folded name, replacing any existing one.
pub open spec fn insert_child(s: Seq<KeyView>, c: KeyView) -> Seq<KeyView>
    decreases s.len(),
{
    if s.len() == 0 {
        seq![c]
    } else if fold_seq(c.name) == fold_seq(s[0].name) {
        seq![c] + s.skip(1)
    } else if lex_lt(fold_seq(c.name), fold_seq(s[0].name)) {
        seq![c] + s
    } else {
        seq![s[0]] + insert_child(s.skip(1), c)
    }
}

/// Remove the subkey filed under the folded form of `n`, if any.
pub open spec fn remove_child(s: Seq<KeyView>, n: Seq<char>) -> Seq<KeyView>
    decreases s.len(),
{
    if s.len() == 0 {
        s
    } else if fold_seq(s[0].name) == fold_seq(n) {
        s.skip(1)
    } else {
        seq![s[0]] + remove_child(s.skip(1), n)
    }
}

// -- bridges between positional executable edits and the recursive forms --
pub proof fn lemma_insert_entry_positional(s: Seq<EntryView>, e: EntryView, pos: int)
    requires
        sorted_entries(s),
        0 <= pos <= s.len(),
        forall|j: int| 0 <= j < pos ==> lex_lt((#[trigger] s[j]).key, e.key),
        pos < s.len() ==> lex_lt(e.key, s[pos].key),
    ensures
        insert_entry(s, e) == s.insert(pos, e),
    decreases pos,
{
    crate::text::lemma_lex_trichotomy(e.key, if s.len() > 0 { s[0].key } else { e.key });
    if pos == 0 {
        if s.len() == 0 {
            assert(insert_entry(s, e) =~= s.insert(0, e));
        } else {
            assert(lex_lt(e.key, s[0].key));
            assert(insert_entry(s, e) =~= s.insert(0, e));
        }
    } else {
        assert(lex_lt(s[0].key, e.key));
        lemma_insert_entry_positional(s.skip(1), e, pos - 1);
        assert(insert_entry(s, e) =~= seq![s[0]] + insert_entry(s.skip(1), e));
        assert(seq![s[0]] + s.skip(1).insert(pos - 1, e) =~= s.insert(pos, e));
    }
}

pub proof fn lemma_insert_entry_replace(s: Seq<EntryView>, e: EntryView, pos: int)
    requires
        sorted_entries(s),
        0 <= pos < s.len(),
        s[pos].key == e.key,
    ensures
        insert_entry(s, e) == s.update(pos, e),
    decreases pos,
{
    if pos == 0 {
        assert(insert_entry(s, e) =~= s.update(0, e));
    } else {
        assert(lex_lt(s[0].key, s[pos].key));
        crate::text::lemma_lex_trichotomy(e.key, s[0].key);
        lemma_insert_entry_replace(s.skip(1), e, pos - 1);
        assert(insert_entry(s, e) =~= seq![s[0]] + s.skip(1).update(pos - 1, e));
        assert(seq![s[0]] + s.skip(1).update(pos - 1, e) =~= s.update(pos, e));
    }
}

pub proof fn lemma_remove_entry_positional(s: Seq<EntryView>, key: Seq<char>, pos: int)
    requires
        sorted_entries(s),
        0 <= pos < s.len(),
        s[pos].key == key,
    ensures
        remove_entry(s, key) == s.remove(pos),
    decreases pos,
{
    if pos == 0 {
        assert(remove_entry(s, key) =~= s.remove(0));
    } else {
        assert(lex_lt(s[0].key, s[pos].key));
        crate::text::lemma_lex_trichotomy(key, s[0].key);
        lemma_remove_entry_positional(s.skip(1), key, pos - 1);
        assert(remove_entry(s, key) =~= seq![s[0]] + s.skip(1).remove(pos - 1));
        assert(seq![s[0]] + s.skip(1).remove(pos - 1) =~= s.remove(pos));
    }
}

pub proof fn lemma_insert_child_positional(s: Seq<KeyView>, c: KeyView, pos: int)
    requires
        sorted_subkeys(s),
        0 <= pos <= s.len(),
        forall|j: int| 0 <= j < pos ==> lex_lt(fold_seq((#[trigger] s[j]).name), fold_seq(c.name)),
        pos < s.len() ==> lex_lt(fold_seq(c.name), fold_seq(s[pos].name)),
    ensures
        insert_child(s, c) == s.insert(pos, c),
    decreases pos,
{
    crate::text::lemma_lex_trichotomy(
        fold_seq(c.name),
        if s.len() > 0 {
            fold_seq(s[0].name)
        } else {
            fold_seq(c.name)
        },
    );
    if pos == 0 {
        if s.len() == 0 {
            assert(insert_child(s, c) =~= s.insert(0, c));
        } else {
            assert(insert_child(s, c) =~= s.insert(0, c));
        }
    } else {
        assert(lex_lt(fold_seq(s[0].name), fold_seq(c.name)));
        lemma_insert_child_positional(s.skip(1), c, pos - 1);
        assert(insert_child(s, c) =~= seq![s[0]] + insert_child(s.skip(1), c));
        assert(seq![s[0]] + s.skip(1).insert(pos - 1, c) =~= s.insert(pos, c));
    }
}

pub proof fn lemma_remove_child_positional(s: Seq<KeyView>, n: Seq<char>, pos: int)
    requires
        sorted_subkeys(s),
        0 <= pos < s.len(),
        fold_seq(s[pos].name) == fold_seq(n),
    ensures
        remove_child(s, n) == s.remove(pos),
    decreases pos,
{
    if pos == 0 {
        assert(remove_child(s, n) =~= s.remove(0));
    } else {
        assert(lex_lt(fold_seq(s[0].name), fold_seq(s[pos].name)));
        crate::text::lemma_lex_trichotomy(fold_seq(n), fold_seq(s[0].name));
        lemma_remove_child_positional(s.skip(1), n, pos - 1);
        assert(remove_child(s, n) =~= seq![s[0]] + s.skip(1).remove(pos - 1));
        assert(seq![s[0]] + s.skip(1).remove(pos - 1) =~= s.remove(pos));
    }
}


// ---------------------------------------------------------------------------
// Direct sortedness consequences of positional edits.
// ---------------------------------------------------------------------------
pub proof fn lemma_sorted_entries_insert_at(s: Seq<EntryView>, e: EntryView, pos: int)
    requires
        sorted_entries(s),
        0 <= pos <= s.len(),
        forall|j: int| 0 <= j < pos ==> lex_lt((#[trigger] s[j]).key, e.key),
        forall|j: int| pos <= j < s.len() ==> lex_lt(e.key, (#[trigger] s[j]).key),
    ensures
        sorted_entries(s.insert(pos, e)),
{
    let t = s.insert(pos, e);
    assert forall|i: int, j: int| 0 <= i < j < t.len() implies lex_lt(
        (#[trigger] t[i]).key,
        (#[trigger] t[j]).key,
    ) by {
        if i < pos {
            assert(t[i] == s[i]);
        }
        if i == pos {
            assert(t[i] == e);
        }
        if i > pos {
            assert(t[i] == s[i - 1]);
        }
        if j < pos {
            assert(t[j] == s[j]);
        }
        if j == pos {
            assert(t[j] == e);
        }
        if j > pos {
            assert(t[j] == s[j - 1]);
        }
    }
}

pub proof fn lemma_sorted_entries_update_at(s: Seq<EntryView>, e: EntryView, pos: int)
    requires
        sorted_entries(s),
        0 <= pos < s.len(),
        s[pos].key == e.key,
    ensures
        sorted_entries(s.update(pos, e)),
{
    let t = s.update(pos, e);
    assert forall|i: int, j: int| 0 <= i < j < t.len() implies lex_lt(
        (#[trigger] t[i]).key,
        (#[trigger] t[j]).key,
    ) by {
        assert(lex_lt(s[i].key, s[j].key));
    }
}

pub proof fn lemma_sorted_entries_remove_at(s: Seq<EntryView>, pos: int)
    requires
        sorted_entries(s),
        0 <= pos < s.len(),
    ensures
        sorted_entries(s.remove(pos)),
{
    let t = s.remove(pos);
    assert forall|i: int, j: int| 0 <= i < j < t.len() implies lex_lt(
        (#[trigger] t[i]).key,
        (#[trigger] t[j]).key,
    ) by {
        let si = if i < pos { i } else { i + 1 };
        let sj = if j < pos { j } else { j + 1 };
        assert(t[i] == s[si] && t[j] == s[sj]);
        assert(lex_lt(s[si].key, s[sj].key));
    }
}

pub proof fn lemma_sorted_subkeys_insert_at(s: Seq<KeyView>, c: KeyView, pos: int)
    requires
        sorted_subkeys(s),
        0 <= pos <= s.len(),
        forall|j: int| 0 <= j < pos ==> lex_lt(fold_seq((#[trigger] s[j]).name), fold_seq(c.name)),
        forall|j: int|
            pos <= j < s.len() ==> lex_lt(fold_seq(c.name), fold_seq((#[trigger] s[j]).name)),
    ensures
        sorted_subkeys(s.insert(pos, c)),
{
    let t = s.insert(pos, c);
    assert forall|i: int, j: int| 0 <= i < j < t.len() implies lex_lt(
        fold_seq((#[trigger] t[i]).name),
        fold_seq((#[trigger] t[j]).name),
    ) by {
        if i < pos {
            assert(t[i] == s[i]);
        }
        if i == pos {
            assert(t[i] == c);
        }
        if i > pos {
            assert(t[i] == s[i - 1]);
        }
        if j < pos {
            assert(t[j] == s[j]);
        }
        if j == pos {
            assert(t[j] == c);
        }
        if j > pos {
            assert(t[j] == s[j - 1]);
        }
    }
}

pub proof fn lemma_sorted_subkeys_update_at(s: Seq<KeyView>, c: KeyView, pos: int)
    requires
        sorted_subkeys(s),
        0 <= pos < s.len(),
        fold_seq(s[pos].name) == fold_seq(c.name),
    ensures
        sorted_subkeys(s.update(pos, c)),
{
    let t = s.update(pos, c);
    assert forall|i: int, j: int| 0 <= i < j < t.len() implies lex_lt(
        fold_seq((#[trigger] t[i]).name),
        fold_seq((#[trigger] t[j]).name),
    ) by {
        assert(lex_lt(fold_seq(s[i].name), fold_seq(s[j].name)));
    }
}

pub proof fn lemma_sorted_subkeys_remove_at(s: Seq<KeyView>, pos: int)
    requires
        sorted_subkeys(s),
        0 <= pos < s.len(),
    ensures
        sorted_subkeys(s.remove(pos)),
{
    let t = s.remove(pos);
    assert forall|i: int, j: int| 0 <= i < j < t.len() implies lex_lt(
        fold_seq((#[trigger] t[i]).name),
        fold_seq((#[trigger] t[j]).name),
    ) by {
        let si = if i < pos { i } else { i + 1 };
        let sj = if j < pos { j } else { j + 1 };
        assert(t[i] == s[si] && t[j] == s[sj]);
        assert(lex_lt(fold_seq(s[si].name), fold_seq(s[sj].name)));
    }
}

// ---------------------------------------------------------------------------
// Leaf mutations at the view level.
// ---------------------------------------------------------------------------
impl KeyView {
    /// The key after a value is filed under the folded form of `name`.
    /// A mutation marks the key dirty; the parser's loading variant does not.
    pub open spec fn with_value(self, name: Seq<char>, v: ValueView, mark: bool) -> KeyView {
        KeyView {
            values: insert_entry(self.values, EntryView { key: fold_seq(name), value: v }),
            is_dirty: self.is_dirty || mark,
            ..self
        }
    }

    /// The key after the value filed under `name` is removed; unchanged when
    /// there is none.
    pub open spec fn without_value(self, name: Seq<char>) -> KeyView {
        if self.has_value(name) {
            KeyView { values: remove_entry(self.values, fold_seq(name)), is_dirty: true, ..self }
        } else {
            self
        }
    }

    /// The key after an (idempotent) subkey creation: unchanged when a child
    /// already answers to the folded name, else a fresh dirty child is added
    /// and the key itself becomes dirty.
    pub open spec fn with_new_subkey(self, name: Seq<char>) -> KeyView {
        if self.has_subkey(name) {
            self
        } else {
            KeyView {
                subkeys: insert_child(self.subkeys, KeyView::fresh(name, true)),
                is_dirty: true,
                ..self
            }
        }
    }

    /// Whether a deletion of the named subkey goes through: it must exist,
    /// and a non-recursive deletion refuses a child that has subkeys itself.
    pub open spec fn subkey_removable(self, name: Seq<char>, recursive: bool) -> bool {
        self.has_subkey(name) && (recursive || self.subkey_of(name).subkeys.len() == 0)
    }

    pub open spec fn without_subkey(self, name: Seq<char>, recursive: bool) -> KeyView {
        if self.subkey_removable(name, recursive) {
            KeyView { subkeys: remove_child(self.subkeys, name), is_dirty: true, ..self }
        } else {
            self
        }
    }
}

// ---------------------------------------------------------------------------
// Executable leaf mutations.
// ---------------------------------------------------------------------------
impl RegistryKey {
    /// Position scan for a value key (already folded): the slot with that
    /// key, or the insertion point that keeps the run sorted.
    fn entry_pos(&self, key: &Vec<char>) -> (r: (usize, bool))
        requires
            self@.wf(),
        ensures
            r.1 ==> r.0 < self@.values.len() && self@.values[r.0 as int].key == key@,
            !r.1 ==> r.0 <= self@.values.len() && (forall|j: int|
                0 <= j < r.0 ==> lex_lt((#[trigger] self@.values[j]).key, key@)) && (forall|j: int|
                r.0 <= j < self@.values.len() ==> lex_lt(key@, (#[trigger] self@.values[j]).key)),
    {
        let mut i: usize = 0;
        while i < self.values.len()
            invariant
                self@.wf(),
                i <= self.values@.len(),
                self@.values.len() == self.values@.len(),
                forall|j: int| 0 <= j < i ==> lex_lt((#[trigger] self@.values[j]).key, key@),
            decreases self.values@.len() - i,
        {
            proof {
                assert(self@.values[i as int] == self.values@[i as int]@);
            }
            let kc = str_chars(self.values[i].key.as_str());
            let c = lex_cmp(&kc, key);
            if c == 0 {
                return (i, true);
            }
            if c > 0 {
                proof {
                    assert forall|j: int|
                        i <= j < self@.values.len() implies lex_lt(
                        key@,
                        (#[trigger] self@.values[j]).key,
                    ) by {
                        if j > i {
                            crate::text::lemma_lex_transitive(
                                key@,
                                self@.values[i as int].key,
                                self@.values[j].key,
                            );
                        }
                    }
                }
                return (i, false);
            }
            i += 1;
        }
        (i, false)
    }

    /// Position scan for a subkey by folded name.
    fn child_pos(&self, fname: &Vec<char>) -> (r: (usize, bool))
        requires
            self@.wf(),
        ensures
            r.1 ==> r.0 < self@.subkeys.len() && fold_seq(self@.subkeys[r.0 as int].name) == fname@,
            !r.1 ==> r.0 <= self@.subkeys.len() && (forall|j: int|
                0 <= j < r.0 ==> lex_lt(fold_seq((#[trigger] self@.subkeys[j]).name), fname@)) && (
            forall|j: int|
                r.0 <= j < self@.subkeys.len() ==> lex_lt(
                    fname@,
                    fold_seq((#[trigger] self@.subkeys[j]).name),
                )),
    {
        let mut i: usize = 0;
        proof {
            lemma_views_of(self.subkeys@);
        }
        while i < self.subkeys.len()
            invariant
                self@.wf(),
                i <= self.subkeys@.len(),
                self@.subkeys.len() == self.subkeys@.len(),
                forall|j: int|
                    0 <= j < i ==> lex_lt(fold_seq((#[trigger] self@.subkeys[j]).name), fname@),
            decreases self.subkeys@.len() - i,
        {
            proof {
                lemma_views_of(self.subkeys@);
                assert(self@.subkeys[i as int] == self.subkeys@[i as int]@);
            }
            let nc = str_chars(self.subkeys[i].name.as_str());
            let fn_i = fold_chars(&nc);
            let c = lex_cmp(&fn_i, fname);
            if c == 0 {
                return (i, true);
            }
            if c > 0 {
                proof {
                    assert forall|j: int|
                        i <= j < self@.subkeys.len() implies lex_lt(
                        fname@,
                        fold_seq((#[trigger] self@.subkeys[j]).name),
                    ) by {
                        if j > i {
                            crate::text::lemma_lex_transitive(
                                fname@,
                                fold_seq(self@.subkeys[i as int].name),
                                fold_seq(self@.subkeys[j].name),
                            );
                        }
                    }
                }
                return (i, false);
            }
            i += 1;
        }
        (i, false)
    }

    fn set_value_inner(&mut self, name: &str, value: RegistryValue, mark: bool)
        requires
            old(self)@.wf(),
        ensures
            final (self)@ == old(self)@.with_value(name@, value@, mark),
            final (self)@.wf(),
    {
        let n = str_chars(name);
        let key = fold_chars(&n);
        let ghost e = EntryView { key: fold_seq(name@), value: value@ };
        let (pos, found) = self.entry_pos(&key);
        let slot = ValueEntry { key: crate::text::chars_to_string(&key), value };
        let ghost oldvals = self@.values;
        if found {
            self.values.remove(pos);
            self.values.insert(pos, slot);
            proof {
                assert(self.values@ =~= old(self).values@.update(pos as int, slot));
                assert(self@.values =~= oldvals.update(pos as int, e));
                lemma_insert_entry_replace(oldvals, e, pos as int);
                lemma_sorted_entries_update_at(oldvals, e, pos as int);
            }
        } else {
            self.values.insert(pos, slot);
            proof {
                assert(self.values@ =~= old(self).values@.insert(pos as int, slot));
                assert(self@.values =~= oldvals.insert(pos as int, e));
                lemma_insert_entry_positional(oldvals, e, pos as int);
                lemma_sorted_entries_insert_at(oldvals, e, pos as int);
            }
        }
        if mark {
            self.is_dirty = true;
        }
        proof {
            crate::text::lemma_fold_case_insensitive(name@);
            lemma_views_of(self.subkeys@);
            lemma_views_of(old(self).subkeys@);
            assert(self@.subkeys =~= old(self)@.subkeys);
            assert(self@ =~= old(self)@.with_value(name@, value@, mark));
        }
    }

    /// Insert or overwrite a value and mark the key dirty.
    pub fn set_value(&mut self, name: &str, value: RegistryValue)
        requires
            old(self)@.wf(),
        ensures
            final (self)@ == old(self)@.with_value(name@, value@, true),
            final (self)@.wf(),
    {
        self.set_value_inner(name, value, true)
    }

    /// The parser's variant: same insert, no dirty mark.
    pub fn set_value_for_loading(&mut self, name: &str, value: RegistryValue)
        requires
            old(self)@.wf(),
        ensures
            final (self)@ == old(self)@.with_value(name@, value@, false),
            final (self)@.wf(),
    {
        self.set_value_inner(name, value, false)
    }

    /// Remove a value; reports whether one was removed, and dirties the key
    /// exactly then.
    pub fn delete_value(&mut self, name: &str) -> (removed: bool)
        requires
            old(self)@.wf(),
        ensures
            removed == old(self)@.has_value(name@),
            final (self)@ == old(self)@.without_value(name@),
            final (self)@.wf(),
    {
        let n = str_chars(name);
        let key = fold_chars(&n);
        let (pos, found) = self.entry_pos(&key);
        let ghost oldvals = self@.values;
        if found {
            self.values.remove(pos);
            self.is_dirty = true;
            proof {
                assert(self@.values =~= oldvals.remove(pos as int));
                lemma_remove_entry_positional(oldvals, fold_seq(name@), pos as int);
                lemma_sorted_entries_remove_at(oldvals, pos as int);
                lemma_views_of(self.subkeys@);
                lemma_views_of(old(self).subkeys@);
                assert(self@.subkeys =~= old(self)@.subkeys);
                assert(old(self)@.has_value(name@));
                assert(self@ =~= old(self)@.without_value(name@));
            }
            true
        } else {
            proof {
                if old(self)@.has_value(name@) {
                    let j = old(self)@.value_index(name@);
                    crate::text::lemma_lex_trichotomy(old(self)@.values[j].key, fold_seq(name@));
                }
                assert(self@ =~= old(self)@.without_value(name@));
            }
            false
        }
    }

    /// Deletion that reports an error when the value is absent.
    pub fn try_delete_value(&mut self, name: &str) -> (r: Result<(), String>)
        requires
            old(self)@.wf(),
        ensures
            r is Ok <==> old(self)@.has_value(name@),
            final (self)@ == old(self)@.without_value(name@),
            final (self)@.wf(),
    {
        if self.delete_value(name) {
            Ok(())
        } else {
            let mut msg = String::new();
            msg.append("value '");
            msg.append(name);
            msg.append("' not found");
            Err(msg)
        }
    }

    /// Idempotent subkey creation: reuse the child filed under the folded
    /// name, or add a fresh dirty child and dirty this key.
    pub fn create_subkey(&mut self, name: &str)
        requires
            old(self)@.wf(),
            name@.len() > 0,
        ensures
            final (self)@ == old(self)@.with_new_subkey(name@),
            final (self)@.wf(),
            final (self)@.has_subkey(name@),
    {
        let n = str_chars(name);
        let fname = fold_chars(&n);
        let (pos, found) = self.child_pos(&fname);
        if !found {
            let child = RegistryKey {
                name: name.to_owned(),
                class_name: None,
                modification_time: 0,
                is_symlink: false,
                is_volatile: false,
                is_dirty: true,
                subkeys: Vec::new(),
                values: Vec::new(),
            };
            proof {
                lemma_views_of(child.subkeys@);
                assert(child@.subkeys =~= Seq::<KeyView>::empty());
                assert(child@.values =~= Seq::<EntryView>::empty());
                assert(child@ =~= KeyView::fresh(name@, true));
            }
            proof {
                lemma_views_of(self.subkeys@);
                assert forall|j: int|
                    0 <= j < self@.subkeys.len() implies fold_seq(
                    (#[trigger] self@.subkeys[j]).name,
                ) != fold_seq(name@) by {
                    crate::text::lemma_lex_trichotomy(
                        fold_seq(self@.subkeys[j].name),
                        fold_seq(name@),
                    );
                }
                assert(!self@.has_subkey(name@));
            }
            let ghost oldsubs = self@.subkeys;
            self.subkeys.insert(pos, child);
            self.is_dirty = true;
            proof {
                lemma_views_of(self.subkeys@);
                lemma_views_of(old(self).subkeys@);
                assert(self@.subkeys =~= oldsubs.insert(pos as int, KeyView::fresh(name@, true)));
                lemma_insert_child_positional(oldsubs, KeyView::fresh(name@, true), pos as int);
                lemma_sorted_subkeys_insert_at(oldsubs, KeyView::fresh(name@, true), pos as int);
                assert(self@ =~= old(self)@.with_new_subkey(name@));
                assert(fold_seq(self@.subkeys[pos as int].name) == fold_seq(name@));
                assert(KeyView::fresh(name@, true).wf());
                assert forall|j: int|
                    0 <= j < self@.subkeys.len() implies (#[trigger] self@.subkeys[j]).wf()
                    && self@.subkeys[j].name.len() > 0 by {
                    if j < pos as int {
                        assert(self@.subkeys[j] == oldsubs[j]);
                    } else if j > pos as int {
                        assert(self@.subkeys[j] == oldsubs[j - 1]);
                    }
                }
            }
        } else {
            proof {
                assert(old(self)@.has_subkey(name@));
                assert(self@ =~= old(self)@.with_new_subkey(name@));
            }
        }
    }

    /// Remove the named subkey together with its subtree.  When `recursive`
    /// is false a child that still has subkeys is left alone and the call
    /// reports failure.
    pub fn delete_subkey(&mut self, name: &str, recursive: bool) -> (removed: bool)
        requires
            old(self)@.wf(),
        ensures
            removed == old(self)@.subkey_removable(name@, recursive),
            final (self)@ == old(self)@.without_subkey(name@, recursive),
            final (self)@.wf(),
    {
        let n = str_chars(name);
        let fname = fold_chars(&n);
        let (pos, found) = self.child_pos(&fname);
        if !found {
            proof {
                if old(self)@.has_subkey(name@) {
                    let j = old(self)@.subkey_index(name@);
                    crate::text::lemma_lex_trichotomy(
                        fold_seq(old(self)@.subkeys[j].name),
                        fold_seq(name@),
                    );
                }
                assert(self@ =~= old(self)@.without_subkey(name@, recursive));
            }
            return false;
        }
        proof {
            lemma_views_of(self.subkeys@);
            assert(self@.has_subkey(name@));
            let j = self@.subkey_index(name@);
            lemma_subkey_index_unique(self@, pos as int, j);
        }
        if !recursive {
            let has_children = self.subkeys[pos].subkeys.len() > 0;
            if has_children {
                proof {
                    assert(old(self)@.subkey_of(name@).subkeys.len() > 0) by {
                        lemma_views_of(self.subkeys@);
                        lemma_views_of(self.subkeys@[pos as int].subkeys@);
                    }
                    assert(self@ =~= old(self)@.without_subkey(name@, recursive));
                }
                return false;
            }
        }
        let ghost oldsubs = self@.subkeys;
        self.subkeys.remove(pos);
        self.is_dirty = true;
        proof {
            lemma_views_of(self.subkeys@);
            lemma_views_of(old(self).subkeys@);
            assert(self@.subkeys =~= oldsubs.remove(pos as int));
            lemma_remove_child_positional(oldsubs, name@, pos as int);
            lemma_sorted_subkeys_remove_at(oldsubs, pos as int);
            if !recursive {
                lemma_views_of(old(self).subkeys@[pos as int].subkeys@);
                assert(old(self)@.subkey_of(name@).subkeys.len() == 0);
            }
            assert(old(self)@.subkey_removable(name@, recursive));
            assert(self@ =~= old(self)@.without_subkey(name@, recursive));
        }
        true
    }

    /// Deletion that reports an error when nothing was removed.
    pub fn try_delete_subkey(&mut self, name: &str, recursive: bool) -> (r: Result<(), String>)
        requires
            old(self)@.wf(),
        ensures
            r is Ok <==> old(self)@.subkey_removable(name@, recursive),
            final (self)@ == old(self)@.without_subkey(name@, recursive),
            final (self)@.wf(),
    {
        if self.delete_subkey(name, recursive) {
            Ok(())
        } else {
            let mut msg = String::new();
            msg.append("subkey '");
            msg.append(name);
            msg.append("' not deleted");
            Err(msg)
        }
    }
}


// ---------------------------------------------------------------------------
// Paths.  A path is split on backslashes into non-empty segments; every
// segment is resolved case-insensitively.
// ---------------------------------------------------------------------------

/// Length of the leading run of non-backslash characters.
pub open spec fn seg_len(s: Seq<char>) -> int
    decreases s.len(),
{
    if s.len() == 0 || s[0] == '\\' {
        0
    } else {
        1 + seg_len(s.skip(1))
    }
}

pub proof fn lemma_seg_len(s: Seq<char>)
    ensures
        0 <= seg_len(s) <= s.len(),
        forall|t: int| 0 <= t < seg_len(s) ==> s[t] != '\\',
        seg_len(s) < s.len() ==> s[seg_len(s)] == '\\',
    decreases s.len(),
{
    if s.len() > 0 && s[0] != '\\' {
        lemma_seg_len(s.skip(1));
        assert forall|t: int| 0 <= t < seg_len(s) implies s[t] != '\\' by {
            if t > 0 {
                assert(s.skip(1)[t - 1] == s[t]);
                assert(s.skip(1)[t - 1] != '\\');
            }
        }
        if seg_len(s) < s.len() {
            assert(s.skip(1)[seg_len(s) - 1] == s[seg_len(s)]);
        }
    }
}

/// The segments of a path: maximal backslash-free runs, empties dropped.
pub open spec fn split_path(s: Seq<char>) -> Seq<Seq<char>>
    decreases s.len(),
    via split_path_decreases
{
    if s.len() == 0 {
        Seq::empty()
    } else if s[0] == '\\' {
        split_path(s.skip(1))
    } else {
        seq![s.take(seg_len(s))] + split_path(s.skip(seg_len(s)))
    }
}

#[via_fn]
proof fn split_path_decreases(s: Seq<char>) {
    lemma_seg_len(s);
}

pub proof fn lemma_split_path_segments(s: Seq<char>)
    ensures
        forall|i: int|
            0 <= i < split_path(s).len() ==> (#[trigger] split_path(s)[i]).len() > 0,
    decreases s.len(),
{
    lemma_seg_len(s);
    if s.len() > 0 {
        if s[0] == '\\' {
            lemma_split_path_segments(s.skip(1));
            assert(split_path(s) == split_path(s.skip(1)));
            assert forall|i: int|
                0 <= i < split_path(s).len() implies (#[trigger] split_path(s)[i]).len() > 0 by {
                assert(split_path(s.skip(1))[i].len() > 0);
            }
        } else {
            lemma_split_path_segments(s.skip(seg_len(s)));
            assert(seg_len(s) >= 1);
            let parts = seq![s.take(seg_len(s))] + split_path(s.skip(seg_len(s)));
            assert(split_path(s) == parts);
            assert forall|i: int|
                0 <= i < split_path(s).len() implies (#[trigger] split_path(s)[i]).len() > 0 by {
                if i == 0 {
                    assert(parts[0] == s.take(seg_len(s)));
                    assert(parts[0].len() == seg_len(s));
                } else {
                    assert(parts[i] == split_path(s.skip(seg_len(s)))[i - 1]);
                }
            }
        }
    }
}

pub open spec fn segs_view(s: Seq<Vec<char>>) -> Seq<Seq<char>> {
    Seq::new(s.len(), |i: int| s[i]@)
}

/// Split a path into its segments.
pub fn split_path_chars(p: &Vec<char>) -> (r: Vec<Vec<char>>)
    ensures
        segs_view(r@) == split_path(p@),
        forall|j: int| 0 <= j < r@.len() ==> (#[trigger] r@[j])@.len() > 0,
{
    let mut r: Vec<Vec<char>> = Vec::new();
    let mut i: usize = 0;
    proof {
        assert(p@.skip(0) =~= p@);
        assert(segs_view(r@) =~= Seq::<Seq<char>>::empty());
    }
    while i < p.len()
        invariant
            i <= p@.len(),
            split_path(p@) =~= segs_view(r@) + split_path(p@.skip(i as int)),
            forall|j: int| 0 <= j < r@.len() ==> (#[trigger] r@[j])@.len() > 0,
        decreases p@.len() - i,
    {
        if p[i] == '\\' {
            proof {
                assert(p@.skip(i as int)[0] == p@[i as int]);
                assert(p@.skip(i as int).skip(1) =~= p@.skip(i as int + 1));
            }
            i += 1;
        } else {
            let ghost rest = p@.skip(i as int);
            let mut seg: Vec<char> = Vec::new();
            let mut j: usize = i;
            while j < p.len() && p[j] != '\\'
                invariant
                    i <= j <= p@.len(),
                    seg@ =~= p@.subrange(i as int, j as int),
                    forall|t: int| i <= t < j ==> p@[t] != '\\',
                decreases p@.len() - j,
            {
                seg.push(p[j]);
                proof {
                    assert(seg@ =~= p@.subrange(i as int, j as int + 1));
                }
                j += 1;
            }
            proof {
                lemma_seg_len_characterize(rest, j - i);
                assert(rest.take(seg_len(rest)) =~= p@.subrange(i as int, j as int));
                assert(rest.skip(seg_len(rest)) =~= p@.skip(j as int));
                assert(split_path(rest) == seq![seg@] + split_path(p@.skip(j as int)));
            }
            let ghost oldr = r@;
            r.push(seg);
            proof {
                assert(segs_view(r@) =~= segs_view(oldr).push(p@.subrange(i as int, j as int)));
                assert(segs_view(oldr) + split_path(p@.skip(i as int)) =~= segs_view(r@)
                    + split_path(p@.skip(j as int)));
            }
            i = j;
        }
    }
    proof {
        assert(p@.skip(p@.len() as int) =~= Seq::<char>::empty());
        assert(segs_view(r@) =~= split_path(p@));
    }
    r
}

proof fn lemma_seg_len_characterize(s: Seq<char>, m: int)
    requires
        0 <= m <= s.len(),
        forall|t: int| 0 <= t < m ==> s[t] != '\\',
        m < s.len() ==> s[m] == '\\',
    ensures
        seg_len(s) == m,
    decreases m,
{
    if m > 0 {
        assert(forall|t: int| 0 <= t < s.skip(1).len() ==> s.skip(1)[t] == s[t + 1]);
        lemma_seg_len_characterize(s.skip(1), m - 1);
    }
}

// ---------------------------------------------------------------------------
// Operations along a path, at the view level.
// ---------------------------------------------------------------------------
impl KeyView {
    pub open spec fn path_exists(self, segs: Seq<Seq<char>>) -> bool
        decreases segs.len(),
    {
        segs.len() == 0 || (self.has_subkey(segs[0]) && self.subkey_of(segs[0]).path_exists(
            segs.skip(1),
        ))
    }

    pub open spec fn find_path(self, segs: Seq<Seq<char>>) -> Option<KeyView>
        decreases segs.len(),
    {
        if segs.len() == 0 {
            Some(self)
        } else if self.has_subkey(segs[0]) {
            self.subkey_of(segs[0]).find_path(segs.skip(1))
        } else {
            None
        }
    }

    /// The chain of fresh keys that recursive creation adds below a missing
    /// segment.
    pub open spec fn fresh_chain(name: Seq<char>, rest: Seq<Seq<char>>, mark: bool) -> KeyView
        decreases rest.len(),
    {
        KeyView {
            subkeys: if rest.len() == 0 {
                Seq::empty()
            } else {
                seq![KeyView::fresh_chain(rest[0], rest.skip(1), mark)]
            },
            ..KeyView::fresh(name, mark)
        }
    }

    /// Recursive creation: reuse each existing segment, add fresh keys below
    /// the first missing one.  When `mark` is set and anything was created,
    /// every key along the path is dirtied.
    pub open spec fn create_path(self, segs: Seq<Seq<char>>, mark: bool) -> KeyView
        decreases segs.len(),
    {
        if segs.len() == 0 {
            self
        } else if self.has_subkey(segs[0]) {
            let i = self.subkey_index(segs[0]);
            KeyView {
                subkeys: self.subkeys.update(
                    i,
                    self.subkeys[i].create_path(segs.skip(1), mark),
                ),
                is_dirty: self.is_dirty || (mark && !self.path_exists(segs)),
                ..self
            }
        } else {
            KeyView {
                subkeys: insert_child(
                    self.subkeys,
                    KeyView::fresh_chain(segs[0], segs.skip(1), mark),
                ),
                is_dirty: self.is_dirty || mark,
                ..self
            }
        }
    }

    pub open spec fn set_value_at_spec(
        self,
        segs: Seq<Seq<char>>,
        name: Seq<char>,
        v: ValueView,
        mark: bool,
    ) -> KeyView
        decreases segs.len(),
    {
        if segs.len() == 0 {
            self.with_value(name, v, mark)
        } else if self.has_subkey(segs[0]) {
            let i = self.subkey_index(segs[0]);
            KeyView {
                subkeys: self.subkeys.update(
                    i,
                    self.subkeys[i].set_value_at_spec(segs.skip(1), name, v, mark),
                ),
                is_dirty: self.is_dirty || (mark && self.path_exists(segs)),
                ..self
            }
        } else {
            self
        }
    }

    pub open spec fn value_exists_at(self, segs: Seq<Seq<char>>, name: Seq<char>) -> bool
        decreases segs.len(),
    {
        if segs.len() == 0 {
            self.has_value(name)
        } else {
            self.has_subkey(segs[0]) && self.subkey_of(segs[0]).value_exists_at(
                segs.skip(1),
                name,
            )
        }
    }

    pub open spec fn delete_value_at_spec(self, segs: Seq<Seq<char>>, name: Seq<char>) -> KeyView
        decreases segs.len(),
    {
        if segs.len() == 0 {
            self.without_value(name)
        } else if self.has_subkey(segs[0]) {
            let i = self.subkey_index(segs[0]);
            KeyView {
                subkeys: self.subkeys.update(
                    i,
                    self.subkeys[i].delete_value_at_spec(segs.skip(1), name),
                ),
                is_dirty: self.is_dirty || self.value_exists_at(segs, name),
                ..self
            }
        } else {
            self
        }
    }

    pub open spec fn subkey_removable_at(
        self,
        segs: Seq<Seq<char>>,
        name: Seq<char>,
        recursive: bool,
    ) -> bool
        decreases segs.len(),
    {
        if segs.len() == 0 {
            self.subkey_removable(name, recursive)
        } else {
            self.has_subkey(segs[0]) && self.subkey_of(segs[0]).subkey_removable_at(
                segs.skip(1),
                name,
                recursive,
            )
        }
    }

    pub open spec fn delete_subkey_at_spec(
        self,
        segs: Seq<Seq<char>>,
        name: Seq<char>,
        recursive: bool,
    ) -> KeyView
        decreases segs.len(),
    {
        if segs.len() == 0 {
            self.without_subkey(name, recursive)
        } else if self.has_subkey(segs[0]) {
            let i = self.subkey_index(segs[0]);
            KeyView {
                subkeys: self.subkeys.update(
                    i,
                    self.subkeys[i].delete_subkey_at_spec(segs.skip(1), name, recursive),
                ),
                is_dirty: self.is_dirty || self.subkey_removable_at(segs, name, recursive),
                ..self
            }
        } else {
            self
        }
    }
}


// ---------------------------------------------------------------------------
// Key-property updates.
// ---------------------------------------------------------------------------

/// One metadata assignment on a key.  Metadata writes do not dirty the key.
pub enum MetaUpdate {
    Time(u64),
    ClassName(Option<String>),
    Symlink(bool),
    Volatile(bool),
}

pub enum MetaUpdateView {
    Time(u64),
    ClassName(Option<Seq<char>>),
    Symlink(bool),
    Volatile(bool),
}

impl View for MetaUpdate {
    type V = MetaUpdateView;

    open spec fn view(&self) -> MetaUpdateView {
        match self {
            MetaUpdate::Time(t) => MetaUpdateView::Time(*t),
            MetaUpdate::ClassName(c) => MetaUpdateView::ClassName(
                match c {
                    Some(s) => Some(s@),
                    None => None,
                },
            ),
            MetaUpdate::Symlink(b) => MetaUpdateView::Symlink(*b),
            MetaUpdate::Volatile(b) => MetaUpdateView::Volatile(*b),
        }
    }
}

impl KeyView {
    pub open spec fn with_meta(self, u: MetaUpdateView) -> KeyView {
        match u {
            MetaUpdateView::Time(t) => KeyView { modification_time: t, ..self },
            MetaUpdateView::ClassName(c) => KeyView { class_name: c, ..self },
            MetaUpdateView::Symlink(b) => KeyView { is_symlink: b, ..self },
            MetaUpdateView::Volatile(b) => KeyView { is_volatile: b, ..self },
        }
    }

    pub open spec fn meta_at_spec(self, segs: Seq<Seq<char>>, u: MetaUpdateView) -> KeyView
        decreases segs.len(),
    {
        if segs.len() == 0 {
            self.with_meta(u)
        } else if self.has_subkey(segs[0]) {
            let i = self.subkey_index(segs[0]);
            KeyView {
                subkeys: self.subkeys.update(i, self.subkeys[i].meta_at_spec(segs.skip(1), u)),
                ..self
            }
        } else {
            self
        }
    }
}

// ---------------------------------------------------------------------------
// Executable path operations.
// ---------------------------------------------------------------------------
impl RegistryKey {
    /// Resolve a pre-split path from segment `from` on.
    pub fn find_key_segs(&self, segs: &Vec<Vec<char>>, from: usize) -> (r: Option<&RegistryKey>)
        requires
            self@.wf(),
            from <= segs@.len(),
        ensures
            r is Some <==> self@.path_exists(segs_view(segs@).skip(from as int)),
            r is Some ==> Some(r.unwrap()@) == self@.find_path(segs_view(segs@).skip(from as int))
                && r.unwrap()@.wf(),
        decreases segs@.len() - from,
    {
        let ghost ss = segs_view(segs@).skip(from as int);
        if from == segs.len() {
            proof {
                assert(ss =~= Seq::<Seq<char>>::empty());
            }
            return Some(self);
        }
        proof {
            assert(ss[0] == segs@[from as int]@);
            assert(ss.skip(1) =~= segs_view(segs@).skip(from as int + 1));
        }
        let n = &segs[from];
        match self.find_subkey_idx(n) {
            Some(i) => {
                proof {
                    lemma_views_of(self.subkeys@);
                    assert(self@.has_subkey(ss[0]));
                    let j = self@.subkey_index(ss[0]);
                    assert(0 <= j < self@.subkeys.len() && fold_seq(self@.subkeys[j].name)
                        == fold_seq(ss[0]));
                    lemma_subkey_index_unique(self@, i as int, j);
                    assert(self.subkeys@[i as int]@ == self@.subkey_of(ss[0]));
                }
                self.subkeys[i].find_key_segs(segs, from + 1)
            },
            None => {
                proof {
                    assert(!self@.has_subkey(ss[0]));
                }
                None
            },
        }
    }

    /// Resolve a backslash path; empty path resolves to this key.
    pub fn find_key(&self, path: &str) -> (r: Option<&RegistryKey>)
        requires
            self@.wf(),
        ensures
            r is Some <==> self@.path_exists(split_path(path@)),
            r is Some ==> Some(r.unwrap()@) == self@.find_path(split_path(path@))
                && r.unwrap()@.wf(),
    {
        let p = str_chars(path);
        let segs = split_path_chars(&p);
        proof {
            assert(segs_view(segs@).skip(0) =~= split_path(path@));
        }
        self.find_key_segs(&segs, 0)
    }

    fn make_chain(segs: &Vec<Vec<char>>, at: usize, mark: bool) -> (r: RegistryKey)
        requires
            at < segs@.len(),
            forall|j: int| at <= j < segs@.len() ==> (#[trigger] segs@[j])@.len() > 0,
        ensures
            r@ == KeyView::fresh_chain(
                segs@[at as int]@,
                segs_view(segs@).skip(at as int + 1),
                mark,
            ),
            r@.wf(),
        decreases segs@.len() - at,
    {
        let ghost rest = segs_view(segs@).skip(at as int + 1);
        let mut subkeys: Vec<RegistryKey> = Vec::new();
        let n = segs.len();
        if at + 1 < n {
            let below = Self::make_chain(segs, at + 1, mark);
            subkeys.push(below);
            proof {
                assert(rest[0] == segs@[at as int + 1]@);
                assert(rest.skip(1) =~= segs_view(segs@).skip(at as int + 2));
            }
        } else {
            proof {
                assert(rest =~= Seq::<Seq<char>>::empty());
            }
        }
        let r = RegistryKey {
            name: crate::text::chars_to_string(&segs[at]),
            class_name: None,
            modification_time: 0,
            is_symlink: false,
            is_volatile: false,
            is_dirty: mark,
            subkeys,
            values: Vec::new(),
        };
        proof {
            lemma_views_of(r.subkeys@);
            assert(r@.values =~= Seq::<EntryView>::empty());
            if rest.len() == 0 {
                assert(r@.subkeys =~= Seq::<KeyView>::empty());
            } else {
                assert(r@.subkeys =~= seq![KeyView::fresh_chain(rest[0], rest.skip(1), mark)]);
            }
            assert(r@ =~= KeyView::fresh_chain(segs@[at as int]@, rest, mark));
        }
        r
    }

    /// Recursive creation from segment `from` on; reports whether any key was
    /// created.
    pub fn create_segments(&mut self, segs: &Vec<Vec<char>>, from: usize, mark: bool) -> (created:
        bool)
        requires
            old(self)@.wf(),
            from <= segs@.len(),
            forall|j: int| from <= j < segs@.len() ==> (#[trigger] segs@[j])@.len() > 0,
        ensures
            final (self)@ == old(self)@.create_path(segs_view(segs@).skip(from as int), mark),
            created == !old(self)@.path_exists(segs_view(segs@).skip(from as int)),
            final (self)@.wf(),
            final (self)@.name == old(self)@.name,
        decreases segs@.len() - from,
    {
        let ghost ss = segs_view(segs@).skip(from as int);
        if from == segs.len() {
            proof {
                assert(ss =~= Seq::<Seq<char>>::empty());
            }
            return false;
        }
        proof {
            assert(ss[0] == segs@[from as int]@);
            assert(ss.skip(1) =~= segs_view(segs@).skip(from as int + 1));
        }
        let fname = fold_chars(&segs[from]);
        let (pos, found) = self.child_pos(&fname);
        let ghost oldview = self@;
        if found {
            proof {
                lemma_views_of(self.subkeys@);
                assert(oldview.has_subkey(ss[0]));
                let j = oldview.subkey_index(ss[0]);
                lemma_subkey_index_unique(oldview, pos as int, j);
                assert(self.subkeys@[pos as int]@ == oldview.subkey_of(ss[0]));
            }
            let mut child = self.subkeys.remove(pos);
            let created = child.create_segments(segs, from + 1, mark);
            let ghost newchild = child@;
            self.subkeys.insert(pos, child);
            if created && mark {
                self.is_dirty = true;
            }
            proof {
                lemma_views_of(self.subkeys@);
                lemma_views_of(old(self).subkeys@);
                assert(self.subkeys@ =~= old(self).subkeys@.update(pos as int, child));
                assert(self@.subkeys =~= oldview.subkeys.update(pos as int, newchild));
                assert(self@.values =~= oldview.values);
                assert(oldview.path_exists(ss) == !created);
                assert(self@ =~= oldview.create_path(ss, mark));
                assert(newchild.name == oldview.subkeys[pos as int].name);
                lemma_sorted_subkeys_update_at(oldview.subkeys, newchild, pos as int);
                assert forall|j: int|
                    0 <= j < self@.subkeys.len() implies (#[trigger] self@.subkeys[j]).wf()
                    && self@.subkeys[j].name.len() > 0 by {
                    if j != pos as int {
                        assert(self@.subkeys[j] == oldview.subkeys[j]);
                    }
                }
            }
            created
        } else {
            proof {
                assert forall|j: int|
                    0 <= j < oldview.subkeys.len() implies fold_seq(
                    (#[trigger] oldview.subkeys[j]).name,
                ) != fold_seq(ss[0]) by {
                    crate::text::lemma_lex_trichotomy(
                        fold_seq(oldview.subkeys[j].name),
                        fold_seq(ss[0]),
                    );
                }
                assert(!oldview.has_subkey(ss[0]));
            }
            let chain = Self::make_chain(segs, from, mark);
            let ghost cv = chain@;
            proof {
                lemma_views_of(self.subkeys@);
            }
            self.subkeys.insert(pos, chain);
            if mark {
                self.is_dirty = true;
            }
            proof {
                lemma_views_of(self.subkeys@);
                lemma_views_of(old(self).subkeys@);
                assert(self.subkeys@ =~= old(self).subkeys@.insert(pos as int, chain));
                assert(self@.subkeys =~= oldview.subkeys.insert(pos as int, cv));
                assert(self@.values =~= oldview.values);
                assert(cv.name == ss[0]);
                lemma_insert_child_positional(oldview.subkeys, cv, pos as int);
                lemma_sorted_subkeys_insert_at(oldview.subkeys, cv, pos as int);
                assert(self@ =~= oldview.create_path(ss, mark));
                assert forall|j: int|
                    0 <= j < self@.subkeys.len() implies (#[trigger] self@.subkeys[j]).wf()
                    && self@.subkeys[j].name.len() > 0 by {
                    if j < pos as int {
                        assert(self@.subkeys[j] == oldview.subkeys[j]);
                    } else if j > pos as int {
                        assert(self@.subkeys[j] == oldview.subkeys[j - 1]);
                    }
                }
            }
            true
        }
    }

    /// Create every segment of `path` that is missing; an empty path is a
    /// no-op.  Keys along the path are dirtied exactly when something was
    /// created.
    pub fn create_key_recursive(&mut self, path: &str)
        requires
            old(self)@.wf(),
        ensures
            final (self)@ == old(self)@.create_path(split_path(path@), true),
            final (self)@.wf(),
    {
        let p = str_chars(path);
        let segs = split_path_chars(&p);
        proof {
            assert(segs_view(segs@).skip(0) =~= split_path(path@));
        }
        self.create_segments(&segs, 0, true);
    }

    /// The parser's creation: same shape, no dirty marks.
    pub fn create_key_recursive_loading(&mut self, path: &str)
        requires
            old(self)@.wf(),
        ensures
            final (self)@ == old(self)@.create_path(split_path(path@), false),
            final (self)@.wf(),
    {
        let p = str_chars(path);
        let segs = split_path_chars(&p);
        proof {
            assert(segs_view(segs@).skip(0) =~= split_path(path@));
        }
        self.create_segments(&segs, 0, false);
    }

    /// Set a value on the key at a pre-split path; reports whether the path
    /// resolved.  On success every key along the path is dirtied (unless
    /// loading).
    pub fn set_value_at(
        &mut self,
        segs: &Vec<Vec<char>>,
        from: usize,
        name: &str,
        value: RegistryValue,
        mark: bool,
    ) -> (found: bool)
        requires
            old(self)@.wf(),
            from <= segs@.len(),
        ensures
            final (self)@ == old(self)@.set_value_at_spec(
                segs_view(segs@).skip(from as int),
                name@,
                value@,
                mark,
            ),
            found == old(self)@.path_exists(segs_view(segs@).skip(from as int)),
            final (self)@.wf(),
            final (self)@.name == old(self)@.name,
        decreases segs@.len() - from,
    {
        let ghost ss = segs_view(segs@).skip(from as int);
        if from == segs.len() {
            proof {
                assert(ss =~= Seq::<Seq<char>>::empty());
            }
            self.set_value_inner(name, value, mark);
            return true;
        }
        proof {
            assert(ss[0] == segs@[from as int]@);
            assert(ss.skip(1) =~= segs_view(segs@).skip(from as int + 1));
        }
        let fname = fold_chars(&segs[from]);
        let (pos, found) = self.child_pos(&fname);
        let ghost oldview = self@;
        if !found {
            proof {
                assert forall|j: int|
                    0 <= j < oldview.subkeys.len() implies fold_seq(
                    (#[trigger] oldview.subkeys[j]).name,
                ) != fold_seq(ss[0]) by {
                    crate::text::lemma_lex_trichotomy(
                        fold_seq(oldview.subkeys[j].name),
                        fold_seq(ss[0]),
                    );
                }
                assert(!oldview.has_subkey(ss[0]));
            }
            return false;
        }
        proof {
            lemma_views_of(self.subkeys@);
            assert(oldview.has_subkey(ss[0]));
            let j = oldview.subkey_index(ss[0]);
            lemma_subkey_index_unique(oldview, pos as int, j);
            assert(self.subkeys@[pos as int]@ == oldview.subkey_of(ss[0]));
        }
        let mut child = self.subkeys.remove(pos);
        let deeper = child.set_value_at(segs, from + 1, name, value, mark);
        let ghost newchild = child@;
        self.subkeys.insert(pos, child);
        if deeper && mark {
            self.is_dirty = true;
        }
        proof {
            lemma_views_of(self.subkeys@);
            lemma_views_of(old(self).subkeys@);
            assert(self.subkeys@ =~= old(self).subkeys@.update(pos as int, child));
            assert(self@.subkeys =~= oldview.subkeys.update(pos as int, newchild));
            assert(self@.values =~= oldview.values);
            assert(oldview.path_exists(ss) == deeper);
            assert(self@ =~= oldview.set_value_at_spec(ss, name@, value@, mark));
            assert(newchild.name == oldview.subkeys[pos as int].name);
            lemma_sorted_subkeys_update_at(oldview.subkeys, newchild, pos as int);
            assert forall|j: int|
                0 <= j < self@.subkeys.len() implies (#[trigger] self@.subkeys[j]).wf()
                && self@.subkeys[j].name.len() > 0 by {
                if j != pos as int {
                    assert(self@.subkeys[j] == oldview.subkeys[j]);
                }
            }
        }
        deeper
    }

    /// Delete a value on the key at a pre-split path; reports whether a value
    /// was removed.  Keys along the path are dirtied exactly on removal.
    pub fn delete_value_at(&mut self, segs: &Vec<Vec<char>>, from: usize, name: &str) -> (removed:
        bool)
        requires
            old(self)@.wf(),
            from <= segs@.len(),
        ensures
            final (self)@ == old(self)@.delete_value_at_spec(
                segs_view(segs@).skip(from as int),
                name@,
            ),
            removed == old(self)@.value_exists_at(segs_view(segs@).skip(from as int), name@),
            final (self)@.wf(),
            final (self)@.name == old(self)@.name,
        decreases segs@.len() - from,
    {
        let ghost ss = segs_view(segs@).skip(from as int);
        if from == segs.len() {
            proof {
                assert(ss =~= Seq::<Seq<char>>::empty());
            }
            return self.delete_value(name);
        }
        proof {
            assert(ss[0] == segs@[from as int]@);
            assert(ss.skip(1) =~= segs_view(segs@).skip(from as int + 1));
        }
        let fname = fold_chars(&segs[from]);
        let (pos, found) = self.child_pos(&fname);
        let ghost oldview = self@;
        if !found {
            proof {
                assert forall|j: int|
                    0 <= j < oldview.subkeys.len() implies fold_seq(
                    (#[trigger] oldview.subkeys[j]).name,
                ) != fold_seq(ss[0]) by {
                    crate::text::lemma_lex_trichotomy(
                        fold_seq(oldview.subkeys[j].name),
                        fold_seq(ss[0]),
                    );
                }
                assert(!oldview.has_subkey(ss[0]));
            }
            return false;
        }
        proof {
            lemma_views_of(self.subkeys@);
            assert(oldview.has_subkey(ss[0]));
            let j = oldview.subkey_index(ss[0]);
            lemma_subkey_index_unique(oldview, pos as int, j);
            assert(self.subkeys@[pos as int]@ == oldview.subkey_of(ss[0]));
        }
        let mut child = self.subkeys.remove(pos);
        let removed = child.delete_value_at(segs, from + 1, name);
        let ghost newchild = child@;
        self.subkeys.insert(pos, child);
        if removed {
            self.is_dirty = true;
        }
        proof {
            lemma_views_of(self.subkeys@);
            lemma_views_of(old(self).subkeys@);
            assert(self.subkeys@ =~= old(self).subkeys@.update(pos as int, child));
            assert(self@.subkeys =~= oldview.subkeys.update(pos as int, newchild));
            assert(self@.values =~= oldview.values);
            assert(oldview.value_exists_at(ss, name@) == removed);
            assert(self@ =~= oldview.delete_value_at_spec(ss, name@));
            assert(newchild.name == oldview.subkeys[pos as int].name);
            lemma_sorted_subkeys_update_at(oldview.subkeys, newchild, pos as int);
            assert forall|j: int|
                0 <= j < self@.subkeys.len() implies (#[trigger] self@.subkeys[j]).wf()
                && self@.subkeys[j].name.len() > 0 by {
                if j != pos as int {
                    assert(self@.subkeys[j] == oldview.subkeys[j]);
                }
            }
        }
        removed
    }

    /// Apply one metadata assignment to the key at a pre-split path; reports
    /// whether the path resolved.  Metadata writes leave dirty flags alone.
    pub fn update_meta_at(&mut self, segs: &Vec<Vec<char>>, from: usize, upd: MetaUpdate) -> (found:
        bool)
        requires
            old(self)@.wf(),
            from <= segs@.len(),
        ensures
            final (self)@ == old(self)@.meta_at_spec(segs_view(segs@).skip(from as int), upd@),
            found == old(self)@.path_exists(segs_view(segs@).skip(from as int)),
            final (self)@.wf(),
            final (self)@.name == old(self)@.name,
        decreases segs@.len() - from,
    {
        let ghost ss = segs_view(segs@).skip(from as int);
        if from == segs.len() {
            proof {
                assert(ss =~= Seq::<Seq<char>>::empty());
            }
            let ghost oldview = self@;
            match upd {
                MetaUpdate::Time(t) => {
                    self.modification_time = t;
                },
                MetaUpdate::ClassName(c) => {
                    self.class_name = c;
                },
                MetaUpdate::Symlink(b) => {
                    self.is_symlink = b;
                },
                MetaUpdate::Volatile(b) => {
                    self.is_volatile = b;
                },
            }
            proof {
                lemma_views_of(self.subkeys@);
                lemma_views_of(old(self).subkeys@);
                assert(self@.subkeys =~= oldview.subkeys);
                assert(self@.values =~= oldview.values);
                assert(self@ =~= oldview.with_meta(upd@));
            }
            return true;
        }
        proof {
            assert(ss[0] == segs@[from as int]@);
            assert(ss.skip(1) =~= segs_view(segs@).skip(from as int + 1));
        }
        let fname = fold_chars(&segs[from]);
        let (pos, found) = self.child_pos(&fname);
        let ghost oldview = self@;
        if !found {
            proof {
                assert forall|j: int|
                    0 <= j < oldview.subkeys.len() implies fold_seq(
                    (#[trigger] oldview.subkeys[j]).name,
                ) != fold_seq(ss[0]) by {
                    crate::text::lemma_lex_trichotomy(
                        fold_seq(oldview.subkeys[j].name),
                        fold_seq(ss[0]),
                    );
                }
                assert(!oldview.has_subkey(ss[0]));
            }
            return false;
        }
        proof {
            lemma_views_of(self.subkeys@);
            assert(oldview.has_subkey(ss[0]));
            let j = oldview.subkey_index(ss[0]);
            lemma_subkey_index_unique(oldview, pos as int, j);
            assert(self.subkeys@[pos as int]@ == oldview.subkey_of(ss[0]));
        }
        let mut child = self.subkeys.remove(pos);
        let deeper = child.update_meta_at(segs, from + 1, upd);
        let ghost newchild = child@;
        self.subkeys.insert(pos, child);
        proof {
            lemma_views_of(self.subkeys@);
            lemma_views_of(old(self).subkeys@);
            assert(self.subkeys@ =~= old(self).subkeys@.update(pos as int, child));
            assert(self@.subkeys =~= oldview.subkeys.update(pos as int, newchild));
            assert(self@.values =~= oldview.values);
            assert(self@ =~= oldview.meta_at_spec(ss, upd@));
            assert(newchild.name == oldview.subkeys[pos as int].name);
            lemma_sorted_subkeys_update_at(oldview.subkeys, newchild, pos as int);
            assert forall|j: int|
                0 <= j < self@.subkeys.len() implies (#[trigger] self@.subkeys[j]).wf()
                && self@.subkeys[j].name.len() > 0 by {
                if j != pos as int {
                    assert(self@.subkeys[j] == oldview.subkeys[j]);
                }
            }
        }
        deeper
    }

    /// Delete the named subkey of the key at a pre-split path; reports
    /// whether a subkey was removed.
    pub fn delete_subkey_at(
        &mut self,
        segs: &Vec<Vec<char>>,
        from: usize,
        name: &str,
        recursive: bool,
    ) -> (removed: bool)
        requires
            old(self)@.wf(),
            from <= segs@.len(),
        ensures
            final (self)@ == old(self)@.delete_subkey_at_spec(
                segs_view(segs@).skip(from as int),
                name@,
                recursive,
            ),
            removed == old(self)@.subkey_removable_at(
                segs_view(segs@).skip(from as int),
                name@,
                recursive,
            ),
            final (self)@.wf(),
            final (self)@.name == old(self)@.name,
        decreases segs@.len() - from,
    {
        let ghost ss = segs_view(segs@).skip(from as int);
        if from == segs.len() {
            proof {
                assert(ss =~= Seq::<Seq<char>>::empty());
            }
            return self.delete_subkey(name, recursive);
        }
        proof {
            assert(ss[0] == segs@[from as int]@);
            assert(ss.skip(1) =~= segs_view(segs@).skip(from as int + 1));
        }
        let fname = fold_chars(&segs[from]);
        let (pos, found) = self.child_pos(&fname);
        let ghost oldview = self@;
        if !found {
            proof {
                assert forall|j: int|
                    0 <= j < oldview.subkeys.len() implies fold_seq(
                    (#[trigger] oldview.subkeys[j]).name,
                ) != fold_seq(ss[0]) by {
                    crate::text::lemma_lex_trichotomy(
                        fold_seq(oldview.subkeys[j].name),
                        fold_seq(ss[0]),
                    );
                }
                assert(!oldview.has_subkey(ss[0]));
            }
            return false;
        }
        proof {
            lemma_views_of(self.subkeys@);
            assert(oldview.has_subkey(ss[0]));
            let j = oldview.subkey_index(ss[0]);
            lemma_subkey_index_unique(oldview, pos as int, j);
            assert(self.subkeys@[pos as int]@ == oldview.subkey_of(ss[0]));
        }
        let mut child = self.subkeys.remove(pos);
        let removed = child.delete_subkey_at(segs, from + 1, name, recursive);
        let ghost newchild = child@;
        self.subkeys.insert(pos, child);
        if removed {
            self.is_dirty = true;
        }
        proof {
            lemma_views_of(self.subkeys@);
            lemma_views_of(old(self).subkeys@);
            assert(self.subkeys@ =~= old(self).subkeys@.update(pos as int, child));
            assert(self@.subkeys =~= oldview.subkeys.update(pos as int, newchild));
            assert(self@.values =~= oldview.values);
            assert(oldview.subkey_removable_at(ss, name@, recursive) == removed);
            assert(self@ =~= oldview.delete_subkey_at_spec(ss, name@, recursive));
            assert(newchild.name == oldview.subkeys[pos as int].name);
            lemma_sorted_subkeys_update_at(oldview.subkeys, newchild, pos as int);
            assert forall|j: int|
                0 <= j < self@.subkeys.len() implies (#[trigger] self@.subkeys[j]).wf()
                && self@.subkeys[j].name.len() > 0 by {
                if j != pos as int {
                    assert(self@.subkeys[j] == oldview.subkeys[j]);
                }
            }
        }
        removed
    }
}


// ---------------------------------------------------------------------------
// Whole-subtree timestamping, snapshots, and path display.
// ---------------------------------------------------------------------------

/// Every key of the subtree with its modification time set to `t`.
pub open spec fn with_time_all(k: KeyView, t: u64) -> KeyView
    decreases k,
{
    KeyView { modification_time: t, subkeys: times_of(k.subkeys, t), ..k }
}

pub open spec fn times_of(s: Seq<KeyView>, t: u64) -> Seq<KeyView>
    decreases s,
{
    if s.len() == 0 {
        Seq::empty()
    } else {
        seq![with_time_all(s[0], t)] + times_of(s.skip(1), t)
    }
}

pub proof fn lemma_times_of(s: Seq<KeyView>, t: u64)
    ensures
        times_of(s, t).len() == s.len(),
        forall|i: int| 0 <= i < s.len() ==> #[trigger] times_of(s, t)[i] == with_time_all(s[i], t),
    decreases s,
{
    if s.len() > 0 {
        lemma_times_of(s.skip(1), t);
        assert forall|i: int| 0 <= i < s.len() implies #[trigger] times_of(s, t)[i]
            == with_time_all(s[i], t) by {
            if i > 0 {
                assert(times_of(s, t)[i] == times_of(s.skip(1), t)[i - 1]);
                assert(s.skip(1)[i - 1] == s[i]);
            }
        }
    }
}

pub proof fn lemma_with_time_all_wf(k: KeyView, t: u64)
    requires
        k.wf(),
    ensures
        with_time_all(k, t).wf(),
        with_time_all(k, t).name == k.name,
    decreases k,
{
    lemma_times_of(k.subkeys, t);
    let r = with_time_all(k, t);
    assert forall|i: int| 0 <= i < r.subkeys.len() implies (#[trigger] r.subkeys[i]).wf()
        && r.subkeys[i].name.len() > 0 && r.subkeys[i].name == k.subkeys[i].name by {
        lemma_with_time_all_wf(k.subkeys[i], t);
    }
    assert(sorted_subkeys(r.subkeys));
}

impl RegistryKey {
    /// Set the modification time of this key and every descendant.
    pub fn set_time_recursive(&mut self, t: u64)
        requires
            old(self)@.wf(),
        ensures
            final (self)@ == with_time_all(old(self)@, t),
            final (self)@.wf(),
        decreases *old(self),
    {
        self.modification_time = t;
        let ghost oldview = old(self)@;
        let mut i: usize = 0;
        proof {
            lemma_views_of(self.subkeys@);
        }
        while i < self.subkeys.len()
            invariant
                i <= self.subkeys@.len(),
                self.subkeys@.len() == old(self).subkeys@.len(),
                self.name == old(self).name,
                self.class_name == old(self).class_name,
                self.modification_time == t,
                self.is_symlink == old(self).is_symlink,
                self.is_volatile == old(self).is_volatile,
                self.is_dirty == old(self).is_dirty,
                self.values == old(self).values,
                old(self)@.wf(),
                forall|j: int|
                    0 <= j < i ==> (#[trigger] self.subkeys@[j])@ == with_time_all(
                        old(self)@.subkeys[j],
                        t,
                    ),
                forall|j: int|
                    i <= j < self.subkeys@.len() ==> #[trigger] self.subkeys@[j] == old(
                        self,
                    ).subkeys@[j],
            decreases self.subkeys@.len() - i,
        {
            proof {
                lemma_views_of(old(self).subkeys@);
                assert(decreases_to!(*old(self) => old(self).subkeys));
                assert(decreases_to!(old(self).subkeys => old(self).subkeys[i as int]));
                assert(old(self).subkeys@[i as int]@ == old(self)@.subkeys[i as int]);
            }
            let ghost pre = self.subkeys@;
            let mut child = self.subkeys.remove(i);
            child.set_time_recursive(t);
            self.subkeys.insert(i, child);
            proof {
                assert(self.subkeys@ =~= pre.update(i as int, self.subkeys@[i as int]));
            }
            i += 1;
        }
        proof {
            lemma_views_of(self.subkeys@);
            lemma_views_of(old(self).subkeys@);
            lemma_times_of(oldview.subkeys, t);
            assert(self@.subkeys =~= times_of(oldview.subkeys, t));
            assert(self@.values =~= oldview.values);
            assert(self@ =~= with_time_all(oldview, t));
            lemma_with_time_all_wf(oldview, t);
        }
    }

    /// The subkeys as (folded name, deep copy) pairs, in storage order.
    pub fn snapshot_subkeys(&self) -> (r: Vec<(String, RegistryKey)>)
        ensures
            r@.len() == self@.subkeys.len(),
            forall|i: int|
                0 <= i < r@.len() ==> (#[trigger] r@[i]).0@ == fold_seq(self@.subkeys[i].name)
                    && r@[i].1@ == self@.subkeys[i],
    {
        let mut r: Vec<(String, RegistryKey)> = Vec::new();
        let mut i: usize = 0;
        proof {
            lemma_views_of(self.subkeys@);
        }
        while i < self.subkeys.len()
            invariant
                i <= self.subkeys@.len(),
                self@.subkeys.len() == self.subkeys@.len(),
                r@.len() == i,
                forall|j: int|
                    0 <= j < i ==> (#[trigger] r@[j]).0@ == fold_seq(self@.subkeys[j].name)
                        && r@[j].1@ == self@.subkeys[j],
            decreases self.subkeys@.len() - i,
        {
            proof {
                lemma_views_of(self.subkeys@);
                assert(self.subkeys@[i as int]@ == self@.subkeys[i as int]);
            }
            let nc = str_chars(self.subkeys[i].name.as_str());
            let fname = fold_chars(&nc);
            let copy = self.subkeys[i].duplicate();
            r.push((crate::text::chars_to_string(&fname), copy));
            i += 1;
        }
        r
    }

    /// The value slots as (folded name, value copy) pairs, in storage order.
    pub fn snapshot_values(&self) -> (r: Vec<(String, RegistryValue)>)
        ensures
            r@.len() == self@.values.len(),
            forall|i: int|
                0 <= i < r@.len() ==> (#[trigger] r@[i]).0@ == self@.values[i].key && r@[i].1@
                    == self@.values[i].value,
    {
        let mut r: Vec<(String, RegistryValue)> = Vec::new();
        let mut i: usize = 0;
        while i < self.values.len()
            invariant
                i <= self.values@.len(),
                self@.values.len() == self.values@.len(),
                r@.len() == i,
                forall|j: int|
                    0 <= j < i ==> (#[trigger] r@[j]).0@ == self@.values[j].key && r@[j].1@
                        == self@.values[j].value,
            decreases self.values@.len() - i,
        {
            proof {
                assert(self.values@[i as int]@ == self@.values[i as int]);
            }
            let e = &self.values[i];
            r.push((e.key.clone(), e.value.duplicate()));
            i += 1;
        }
        r
    }
}

/// The stored (original-case) names along a resolved path, non-empty ones
/// only; the display form joins them with doubled backslashes.
pub open spec fn stored_names(k: KeyView, segs: Seq<Seq<char>>) -> Seq<Seq<char>>
    decreases segs.len(),
{
    let own: Seq<Seq<char>> = if k.name.len() > 0 {
        seq![k.name]
    } else {
        Seq::empty()
    };
    if segs.len() == 0 {
        own
    } else {
        own + stored_names(k.subkey_of(segs[0]), segs.skip(1))
    }
}

pub open spec fn join_doubled(parts: Seq<Seq<char>>) -> Seq<char>
    decreases parts.len(),
{
    if parts.len() == 0 {
        Seq::empty()
    } else if parts.len() == 1 {
        parts[0]
    } else {
        parts[0] + "\\\\"@ + join_doubled(parts.skip(1))
    }
}

impl RegistryKey {
    /// The display path of the key that `path` resolves to: the stored names
    /// along the way, joined with doubled backslashes.  Nothing when the path
    /// does not resolve.
    pub fn get_full_path(&self, path: &str) -> (r: Option<String>)
        requires
            self@.wf(),
        ensures
            r is Some <==> self@.path_exists(split_path(path@)),
            r is Some ==> r.unwrap()@ == join_doubled(
                stored_names(self@, split_path(path@)),
            ),
    {
        let p = str_chars(path);
        let segs = split_path_chars(&p);
        proof {
            assert(segs_view(segs@).skip(0) =~= split_path(path@));
        }
        let ghost whole = segs_view(segs@);
        let mut parts: Vec<Vec<char>> = Vec::new();
        let mut cur: &RegistryKey = self;
        let mut i: usize = 0;
        if !self.name.as_str().is_empty() {
            let nc = str_chars(self.name.as_str());
            parts.push(nc);
        }
        proof {
            assert(whole.skip(0) =~= whole);
            if self@.name.len() > 0 {
                assert(segs_view(parts@) =~= seq![self@.name]);
            } else {
                assert(segs_view(parts@) =~= Seq::<Seq<char>>::empty());
            }
            assert(stored_names(self@, whole) =~= segs_view(parts@) + stored_names(
                self@,
                whole.skip(0),
            ).skip(
                if self@.name.len() > 0 {
                    1int
                } else {
                    0int
                },
            ));
        }
        while i < segs.len()
            invariant
                self@.wf(),
                cur@.wf(),
                i <= segs@.len(),
                whole == segs_view(segs@),
                split_path(path@) == whole,
                self@.path_exists(whole) ==> cur@.path_exists(whole.skip(i as int)),
                cur@.path_exists(whole.skip(i as int)) ==> self@.path_exists(whole),
                cur@.path_exists(whole.skip(i as int)) ==> stored_names(self@, whole)
                    =~= segs_view(parts@) + stored_names(cur@, whole.skip(i as int)).skip(
                    if cur@.name.len() > 0 {
                        1int
                    } else {
                        0int
                    },
                ),
            decreases segs@.len() - i,
        {
            proof {
                assert(whole.skip(i as int)[0] == segs@[i as int]@);
                assert(whole.skip(i as int).skip(1) =~= whole.skip(i as int + 1));
            }
            let next = match cur.find_subkey_idx(&segs[i]) {
                Some(idx) => {
                    proof {
                        lemma_views_of(cur.subkeys@);
                        assert(cur@.has_subkey(segs@[i as int]@));
                        let j = cur@.subkey_index(segs@[i as int]@);
                        lemma_subkey_index_unique(cur@, idx as int, j);
                        assert(cur.subkeys@[idx as int]@ == cur@.subkey_of(segs@[i as int]@));
                    }
                    &cur.subkeys[idx]
                },
                None => {
                    proof {
                        assert(!cur@.path_exists(whole.skip(i as int)));
                        assert(!self@.path_exists(split_path(path@)));
                    }
                    return None;
                },
            };
            proof {
                assert(next@.name.len() > 0);
                if cur@.path_exists(whole.skip(i as int)) {
                    assert(next@.path_exists(whole.skip(i as int + 1)));
                    assert(stored_names(cur@, whole.skip(i as int)) =~= (if cur@.name.len() > 0 {
                        seq![cur@.name]
                    } else {
                        Seq::<Seq<char>>::empty()
                    }) + stored_names(next@, whole.skip(i as int + 1)));
                }
                if next@.path_exists(whole.skip(i as int + 1)) {
                    assert(cur@.path_exists(whole.skip(i as int)));
                }
            }
            let nc = str_chars(next.name.as_str());
            let ghost oldparts = parts@;
            parts.push(nc);
            proof {
                assert(segs_view(parts@) =~= segs_view(oldparts).push(next@.name));
                if cur@.path_exists(whole.skip(i as int)) {
                    assert(stored_names(next@, whole.skip(i as int + 1))[0] == next@.name);
                    assert(stored_names(self@, whole) =~= segs_view(parts@) + stored_names(
                        next@,
                        whole.skip(i as int + 1),
                    ).skip(1));
                }
            }
            cur = next;
            i += 1;
        }
        proof {
            assert(whole.skip(segs@.len() as int) =~= Seq::<Seq<char>>::empty());
            assert(cur@.path_exists(whole.skip(segs@.len() as int)));
            assert(self@.path_exists(split_path(path@)));
            assert(stored_names(cur@, Seq::<Seq<char>>::empty()) =~= (if cur@.name.len() > 0 {
                seq![cur@.name]
            } else {
                Seq::<Seq<char>>::empty()
            }));
            assert(stored_names(self@, split_path(path@)) =~= segs_view(parts@));
        }
        let mut out: Vec<char> = Vec::new();
        let mut j: usize = 0;
        let ghost allparts = segs_view(parts@);
        proof {
            assert(allparts.skip(0) =~= allparts);
            assert(stored_names(self@, split_path(path@)) =~= allparts);
        }
        while j < parts.len()
            invariant
                j <= parts@.len(),
                allparts == segs_view(parts@),
                join_doubled(allparts) =~= out@ + join_doubled(allparts.skip(j as int)),
            decreases parts@.len() - j,
        {
            proof {
                assert(allparts.skip(j as int)[0] == parts@[j as int]@);
                assert(allparts.skip(j as int).skip(1) =~= allparts.skip(j as int + 1));
            }
            let ghost base = out@;
            let seg = &parts[j];
            let mut t: usize = 0;
            while t < seg.len()
                invariant
                    t <= seg@.len(),
                    out@ =~= base + seg@.take(t as int),
                decreases seg@.len() - t,
            {
                out.push(seg[t]);
                proof {
                    assert(out@ =~= base + seg@.take(t as int + 1));
                }
                t += 1;
            }
            proof {
                assert(seg@.take(seg@.len() as int) =~= seg@);
                assert(out@ =~= base + parts@[j as int]@);
            }
            if j + 1 < parts.len() {
                out.push('\\');
                out.push('\\');
            }
            proof {
                reveal_strlit("\\\\");
                assert("\\\\"@.len() == 2);
                if j + 1 < parts@.len() {
                    assert(join_doubled(allparts.skip(j as int)) =~= parts@[j as int]@ + "\\\\"@
                        + join_doubled(allparts.skip(j as int + 1)));
                    assert(out@ =~= base + parts@[j as int]@ + "\\\\"@);
                    assert(join_doubled(allparts) =~= out@ + join_doubled(
                        allparts.skip(j as int + 1),
                    ));
                } else {
                    assert(allparts.skip(j as int).len() == 1);
                    assert(join_doubled(allparts.skip(j as int)) =~= parts@[j as int]@);
                    assert(allparts.skip(j as int + 1) =~= Seq::<Seq<char>>::empty());
                    assert(join_doubled(allparts) =~= out@ + join_doubled(
                        allparts.skip(j as int + 1),
                    ));
                }
            }
            j += 1;
        }
        proof {
            assert(allparts.skip(parts@.len() as int) =~= Seq::<Seq<char>>::empty());
            assert(out@ =~= join_doubled(allparts));
        }
        Some(crate::text::chars_to_string(&out))
    }
}


// ---------------------------------------------------------------------------
// Clearing a key: drop its values and subkeys, keep its metadata.
// ---------------------------------------------------------------------------
impl KeyView {
    pub open spec fn cleared(self) -> KeyView {
        if self.subkeys.len() == 0 && self.values.len() == 0 {
            self
        } else {
            KeyView { subkeys: Seq::empty(), values: Seq::empty(), is_dirty: true, ..self }
        }
    }

    pub open spec fn nonempty_at(self, segs: Seq<Seq<char>>) -> bool
        decreases segs.len(),
    {
        if segs.len() == 0 {
            self.subkeys.len() > 0 || self.values.len() > 0
        } else {
            self.has_subkey(segs[0]) && self.subkey_of(segs[0]).nonempty_at(segs.skip(1))
        }
    }

    pub open spec fn clear_at_spec(self, segs: Seq<Seq<char>>) -> KeyView
        decreases segs.len(),
    {
        if segs.len() == 0 {
            self.cleared()
        } else if self.has_subkey(segs[0]) {
            let i = self.subkey_index(segs[0]);
            KeyView {
                subkeys: self.subkeys.update(i, self.subkeys[i].clear_at_spec(segs.skip(1))),
                is_dirty: self.is_dirty || self.nonempty_at(segs),
                ..self
            }
        } else {
            self
        }
    }
}

impl RegistryKey {
    /// Empty the key at a pre-split path: every value and subkey of it is
    /// removed, and when anything was removed the path is dirtied.
    pub fn clear_at(&mut self, segs: &Vec<Vec<char>>, from: usize) -> (cleared: bool)
        requires
            old(self)@.wf(),
            from <= segs@.len(),
        ensures
            final (self)@ == old(self)@.clear_at_spec(segs_view(segs@).skip(from as int)),
            cleared == old(self)@.nonempty_at(segs_view(segs@).skip(from as int)),
            final (self)@.wf(),
            final (self)@.name == old(self)@.name,
        decreases segs@.len() - from,
    {
        let ghost ss = segs_view(segs@).skip(from as int);
        if from == segs.len() {
            proof {
                assert(ss =~= Seq::<Seq<char>>::empty());
            }
            if self.subkeys.len() == 0 && self.values.len() == 0 {
                proof {
                    lemma_views_of(self.subkeys@);
                    assert(self@ == old(self)@.cleared());
                }
                return false;
            }
            proof {
                lemma_views_of(self.subkeys@);
            }
            self.subkeys = Vec::new();
            self.values = Vec::new();
            self.is_dirty = true;
            proof {
                lemma_views_of(self.subkeys@);
                assert(self@.subkeys =~= Seq::<KeyView>::empty());
                assert(self@.values =~= Seq::<EntryView>::empty());
                assert(self@ =~= old(self)@.cleared());
            }
            return true;
        }
        proof {
            assert(ss[0] == segs@[from as int]@);
            assert(ss.skip(1) =~= segs_view(segs@).skip(from as int + 1));
        }
        let fname = fold_chars(&segs[from]);
        let (pos, found) = self.child_pos(&fname);
        let ghost oldview = self@;
        if !found {
            proof {
                assert forall|j: int|
                    0 <= j < oldview.subkeys.len() implies fold_seq(
                    (#[trigger] oldview.subkeys[j]).name,
                ) != fold_seq(ss[0]) by {
                    crate::text::lemma_lex_trichotomy(
                        fold_seq(oldview.subkeys[j].name),
                        fold_seq(ss[0]),
                    );
                }
                assert(!oldview.has_subkey(ss[0]));
            }
            return false;
        }
        proof {
            lemma_views_of(self.subkeys@);
            assert(oldview.has_subkey(ss[0]));
            let j = oldview.subkey_index(ss[0]);
            lemma_subkey_index_unique(oldview, pos as int, j);
            assert(self.subkeys@[pos as int]@ == oldview.subkey_of(ss[0]));
        }
        let mut child = self.subkeys.remove(pos);
        let cleared = child.clear_at(segs, from + 1);
        let ghost newchild = child@;
        self.subkeys.insert(pos, child);
        if cleared {
            self.is_dirty = true;
        }
        proof {
            lemma_views_of(self.subkeys@);
            lemma_views_of(old(self).subkeys@);
            assert(self.subkeys@ =~= old(self).subkeys@.update(pos as int, child));
            assert(self@.subkeys =~= oldview.subkeys.update(pos as int, newchild));
            assert(self@.values =~= oldview.values);
            assert(oldview.nonempty_at(ss) == cleared);
            assert(self@ =~= oldview.clear_at_spec(ss));
            assert(newchild.name == oldview.subkeys[pos as int].name);
            lemma_sorted_subkeys_update_at(oldview.subkeys, newchild, pos as int);
            assert forall|j: int|
                0 <= j < self@.subkeys.len() implies (#[trigger] self@.subkeys[j]).wf()
                && self@.subkeys[j].name.len() > 0 by {
                if j != pos as int {
                    assert(self@.subkeys[j] == oldview.subkeys[j]);
                }
            }
        }
        cleared
    }
}

} // verus!
