use vstd::prelude::*;
use crate::text::str_chars;

verus! {

pub const REG_NONE: u32 = 0;

pub const REG_SZ: u32 = 1;

pub const REG_EXPAND_SZ: u32 = 2;

pub const REG_BINARY: u32 = 3;

pub const REG_DWORD: u32 = 4;

pub const REG_LINK: u32 = 6;

pub const REG_MULTI_SZ: u32 = 7;

pub const REG_QWORD: u32 = 11;

pub enum RegistryValueData {
    String(String),
    ExpandString(String),
    MultiString(Vec<String>),
    Dword(u32),
    Qword(u64),
    Binary(Vec<u8>, u32),
}

pub struct RegistryValue {
    pub name: String,
    pub data: RegistryValueData,
}

// ---------------------------------------------------------------------------
// Mathematical views.  Contracts speak of these, never of the executable
// containers.
// ---------------------------------------------------------------------------
pub enum ValueDataView {
    VString(Seq<char>),
    VExpand(Seq<char>),
    VMulti(Seq<Seq<char>>),
    VDword(u32),
    VQword(u64),
    VBinary(Seq<u8>, u32),
}

pub struct ValueView {
    pub name: Seq<char>,
    pub data: ValueDataView,
}

impl View for RegistryValueData {
    type V = ValueDataView;

    open spec fn view(&self) -> ValueDataView {
        match self {
            RegistryValueData::String(s) => ValueDataView::VString(s@),
            RegistryValueData::ExpandString(s) => ValueDataView::VExpand(s@),
            RegistryValueData::MultiString(ss) => ValueDataView::VMulti(
                Seq::new(ss@.len(), |i: int| ss@[i]@),
            ),
            RegistryValueData::Dword(v) => ValueDataView::VDword(*v),
            RegistryValueData::Qword(v) => ValueDataView::VQword(*v),
            RegistryValueData::Binary(b, ty) => ValueDataView::VBinary(b@, *ty),
        }
    }
}

impl DeepView for RegistryValueData {
    type V = ValueDataView;

    open spec fn deep_view(&self) -> ValueDataView {
        self.view()
    }
}

impl View for RegistryValue {
    type V = ValueView;

    open spec fn view(&self) -> ValueView {
        ValueView { name: self.name@, data: self.data@ }
    }
}

impl DeepView for RegistryValue {
    type V = ValueView;

    open spec fn deep_view(&self) -> ValueView {
        self.view()
    }
}

// ---------------------------------------------------------------------------
// Type codes.
// ---------------------------------------------------------------------------
pub open spec fn spec_reg_type(d: ValueDataView) -> u32 {
    match d {
        ValueDataView::VString(_) => REG_SZ,
        ValueDataView::VExpand(_) => REG_EXPAND_SZ,
        ValueDataView::VMulti(_) => REG_MULTI_SZ,
        ValueDataView::VDword(_) => REG_DWORD,
        ValueDataView::VQword(_) => REG_QWORD,
        ValueDataView::VBinary(_, ty) => ty,
    }
}

// ---------------------------------------------------------------------------
// Canonical raw bytes.  Strings are encoded as UTF-16LE with a two-byte
// terminator; numbers little-endian; binary payloads as they are.
// ---------------------------------------------------------------------------

/// The UTF-16 code units of one character, already split into little-endian
/// bytes: two bytes below U+10000, else a surrogate pair of four bytes.
pub open spec fn char_utf16le(c: char) -> Seq<u8> {
    let u = c as u32;
    if u < 0x10000 {
        seq![(u % 256) as u8, ((u / 256) % 256) as u8]
    } else {
        let v = u - 0x10000;
        let hi = 0xD800 + v / 0x400;
        let lo = 0xDC00 + v % 0x400;
        seq![(hi % 256) as u8, ((hi / 256) % 256) as u8, (lo % 256) as u8, ((lo / 256) % 256) as u8]
    }
}

pub open spec fn utf16le(s: Seq<char>) -> Seq<u8>
    decreases s.len(),
{
    if s.len() == 0 {
        Seq::empty()
    } else {
        char_utf16le(s[0]) + utf16le(s.skip(1))
    }
}

/// `n` little-endian bytes of `v`.
pub open spec fn le_bytes(v: nat, n: nat) -> Seq<u8>
    decreases n,
{
    if n == 0 {
        Seq::empty()
    } else {
        seq![(v % 256) as u8] + le_bytes(v / 256, (n - 1) as nat)
    }
}

/// The value of a little-endian byte string.
pub open spec fn le_val(s: Seq<u8>) -> nat
    decreases s.len(),
{
    if s.len() == 0 {
        0
    } else {
        s[0] as nat + 256 * le_val(s.skip(1))
    }
}

/// The concatenated multi-string payload: each item UTF-16LE with its
/// terminator, then one more terminator.
pub open spec fn multi_bytes(ss: Seq<Seq<char>>) -> Seq<u8>
    decreases ss.len(),
{
    if ss.len() == 0 {
        seq![0u8, 0u8]
    } else {
        utf16le(ss[0]) + seq![0u8, 0u8] + multi_bytes(ss.skip(1))
    }
}

pub open spec fn spec_raw_bytes(d: ValueDataView) -> Seq<u8> {
    match d {
        ValueDataView::VString(s) => utf16le(s) + seq![0u8, 0u8],
        ValueDataView::VExpand(s) => utf16le(s) + seq![0u8, 0u8],
        ValueDataView::VMulti(ss) => multi_bytes(ss),
        ValueDataView::VDword(v) => le_bytes(v as nat, 4),
        ValueDataView::VQword(v) => le_bytes(v as nat, 8),
        ValueDataView::VBinary(b, _) => b,
    }
}

/// Two values are interchangeable exactly when their type codes and their
/// canonical raw bytes agree.
pub open spec fn spec_values_equal(a: ValueDataView, b: ValueDataView) -> bool {
    spec_reg_type(a) == spec_reg_type(b) && spec_raw_bytes(a) == spec_raw_bytes(b)
}

// ---------------------------------------------------------------------------
// Executable encoders.
// ---------------------------------------------------------------------------
pub fn encode_utf16le(v: &Vec<char>, out: &mut Vec<u8>)
    ensures
        final (out)@ == old(out)@ + utf16le(v@),
{
    let mut i: usize = 0;
    proof {
        assert(v@.skip(0) =~= v@);
    }
    while i < v.len()
        invariant
            i <= v@.len(),
            old(out)@ + utf16le(v@) =~= out@ + utf16le(v@.skip(i as int)),
        decreases v@.len() - i,
    {
        let c = v[i];
        let u = c as u32;
        proof {
            assert(v@.skip(i as int)[0] == v@[i as int]);
            assert(v@.skip(i as int).skip(1) =~= v@.skip(i as int + 1));
        }
        if u < 0x10000 {
            out.push((u % 256) as u8);
            out.push(((u / 256) % 256) as u8);
        } else {
            let w = u - 0x10000;
            let hi = 0xD800 + w / 0x400;
            let lo = 0xDC00 + w % 0x400;
            out.push((hi % 256) as u8);
            out.push(((hi / 256) % 256) as u8);
            out.push((lo % 256) as u8);
            out.push(((lo / 256) % 256) as u8);
        }
        i += 1;
    }
    proof {
        assert(v@.skip(v@.len() as int) =~= Seq::<char>::empty());
        assert(out@ =~= old(out)@ + utf16le(v@));
    }
}

pub fn push_le_bytes(v: u64, n: usize, out: &mut Vec<u8>)
    ensures
        final (out)@ == old(out)@ + le_bytes(v as nat, n as nat),
{
    let mut m: u64 = v;
    let mut k: usize = 0;
    while k < n
        invariant
            k <= n,
            old(out)@ + le_bytes(v as nat, n as nat) =~= out@ + le_bytes(
                m as nat,
                (n - k) as nat,
            ),
        decreases n - k,
    {
        out.push((m % 256) as u8);
        m = m / 256;
        k += 1;
    }
    proof {
        assert(out@ =~= old(out)@ + le_bytes(v as nat, n as nat));
    }
}

impl RegistryValue {
    pub fn new(name: &str, data: RegistryValueData) -> (r: Self)
        ensures
            r@ == (ValueView { name: name@, data: data@ }),
    {
        RegistryValue { name: name.to_owned(), data }
    }

    pub fn reg_type(&self) -> (r: u32)
        ensures
            r == spec_reg_type(self.data@),
    {
        match &self.data {
            RegistryValueData::String(_) => REG_SZ,
            RegistryValueData::ExpandString(_) => REG_EXPAND_SZ,
            RegistryValueData::MultiString(_) => REG_MULTI_SZ,
            RegistryValueData::Dword(_) => REG_DWORD,
            RegistryValueData::Qword(_) => REG_QWORD,
            RegistryValueData::Binary(_, ty) => *ty,
        }
    }

    /// The canonical byte encoding used for equality and exchange.
    pub fn raw_bytes(&self) -> (r: Vec<u8>)
        ensures
            r@ == spec_raw_bytes(self.data@),
    {
        let mut out: Vec<u8> = Vec::new();
        match &self.data {
            RegistryValueData::String(s) => {
                let cs = str_chars(s.as_str());
                encode_utf16le(&cs, &mut out);
                out.push(0);
                out.push(0);
                proof {
                    assert(out@ =~= spec_raw_bytes(self.data@));
                }
            },
            RegistryValueData::ExpandString(s) => {
                let cs = str_chars(s.as_str());
                encode_utf16le(&cs, &mut out);
                out.push(0);
                out.push(0);
                proof {
                    assert(out@ =~= spec_raw_bytes(self.data@));
                }
            },
            RegistryValueData::MultiString(ss) => {
                let ghost sv: Seq<Seq<char>> = Seq::new(ss@.len(), |i: int| ss@[i]@);
                let mut i: usize = 0;
                proof {
                    assert(sv.skip(0) =~= sv);
                }
                while i < ss.len()
                    invariant
                        i <= ss@.len(),
                        sv == Seq::new(ss@.len(), |j: int| ss@[j]@),
                        multi_bytes(sv) =~= out@ + multi_bytes(sv.skip(i as int)),
                    decreases ss@.len() - i,
                {
                    proof {
                        assert(sv.skip(i as int)[0] == sv[i as int]);
                        assert(sv.skip(i as int).skip(1) =~= sv.skip(i as int + 1));
                    }
                    let cs = str_chars(ss[i].as_str());
                    encode_utf16le(&cs, &mut out);
                    out.push(0);
                    out.push(0);
                    proof {
                        assert(multi_bytes(sv) =~= out@ + multi_bytes(sv.skip(i as int + 1)));
                    }
                    i += 1;
                }
                out.push(0);
                out.push(0);
                proof {
                    assert(sv.skip(sv.len() as int) =~= Seq::<Seq<char>>::empty());
                    assert(out@ =~= multi_bytes(sv));
                    assert(spec_raw_bytes(self.data@) == multi_bytes(sv));
                }
            },
            RegistryValueData::Dword(v) => {
                push_le_bytes(*v as u64, 4, &mut out);
                proof {
                    assert(out@ =~= spec_raw_bytes(self.data@));
                }
            },
            RegistryValueData::Qword(v) => {
                push_le_bytes(*v, 8, &mut out);
                proof {
                    assert(out@ =~= spec_raw_bytes(self.data@));
                }
            },
            RegistryValueData::Binary(b, _) => {
                let mut i: usize = 0;
                while i < b.len()
                    invariant
                        i <= b@.len(),
                        out@ =~= b@.take(i as int),
                    decreases b@.len() - i,
                {
                    out.push(b[i]);
                    proof {
                        assert(out@ =~= b@.take(i as int + 1));
                    }
                    i += 1;
                }
                proof {
                    assert(out@ =~= b@);
                }
            },
        }
        out
    }

    /// A deep copy; the result is equal to the original.
    pub fn duplicate(&self) -> (r: Self)
        ensures
            r@ == self@,
    {
        let data = match &self.data {
            RegistryValueData::String(s) => RegistryValueData::String(s.clone()),
            RegistryValueData::ExpandString(s) => RegistryValueData::ExpandString(s.clone()),
            RegistryValueData::MultiString(ss) => {
                let mut out: Vec<String> = Vec::new();
                let mut i: usize = 0;
                while i < ss.len()
                    invariant
                        i <= ss@.len(),
                        out@ =~= ss@.take(i as int),
                    decreases ss@.len() - i,
                {
                    out.push(ss[i].clone());
                    proof {
                        assert(out@ =~= ss@.take(i as int + 1));
                    }
                    i += 1;
                }
                proof {
                    assert(out@ =~= ss@);
                }
                RegistryValueData::MultiString(out)
            },
            RegistryValueData::Dword(v) => RegistryValueData::Dword(*v),
            RegistryValueData::Qword(v) => RegistryValueData::Qword(*v),
            RegistryValueData::Binary(b, ty) => {
                let mut out: Vec<u8> = Vec::new();
                let mut i: usize = 0;
                while i < b.len()
                    invariant
                        i <= b@.len(),
                        out@ =~= b@.take(i as int),
                    decreases b@.len() - i,
                {
                    out.push(b[i]);
                    proof {
                        assert(out@ =~= b@.take(i as int + 1));
                    }
                    i += 1;
                }
                proof {
                    assert(out@ =~= b@);
                }
                RegistryValueData::Binary(out, *ty)
            },
        };
        RegistryValue { name: self.name.clone(), data }
    }
}

/// Decode a 64-bit value from exactly eight little-endian bytes.
pub fn u64_from_le8(b: &Vec<u8>) -> (r: u64)
    requires
        b@.len() == 8,
    ensures
        r as nat == le_val(b@),
        le_bytes(r as nat, 8) == b@,
{
    let mut r: u64 = 0;
    let mut i: usize = 8;
    while i > 0
        invariant
            i <= 8,
            b@.len() == 8,
            r as nat == le_val(b@.skip(i as int)),
            r < pow256((8 - i) as nat),
        decreases i,
    {
        i -= 1;
        proof {
            assert(b@.skip(i as int)[0] == b@[i as int]);
            assert(b@.skip(i as int).skip(1) =~= b@.skip(i as int + 1));
            lemma_pow256_step((7 - i) as nat);
            assert(b@[i as int] as nat + 256 * (r as nat) < pow256((8 - i) as nat)) by {
                lemma_pow256_step((7 - i) as nat);
            }
            assert(pow256(8) == 0x1_0000_0000_0000_0000) by {
                reveal_with_fuel(pow256, 9);
            }
            lemma_pow256_le((8 - i) as nat, 8);
        }
        r = b[i] as u64 + 256 * r;
    }
    proof {
        assert(b@.skip(0) =~= b@);
        lemma_le_round_trip(b@, r as nat);
    }
    r
}

pub open spec fn pow256(n: nat) -> nat
    decreases n,
{
    if n == 0 {
        1
    } else {
        256 * pow256((n - 1) as nat)
    }
}

proof fn lemma_pow256_step(n: nat)
    ensures
        pow256(n + 1) == 256 * pow256(n),
        pow256(n) >= 1,
    decreases n,
{
    if n > 0 {
        lemma_pow256_step((n - 1) as nat);
    }
}

proof fn lemma_pow256_le(a: nat, b: nat)
    requires
        a <= b,
    ensures
        pow256(a) <= pow256(b),
    decreases b,
{
    if a < b {
        lemma_pow256_le(a, (b - 1) as nat);
        lemma_pow256_step((b - 1) as nat);
        assert(pow256(b) == 256 * pow256((b - 1) as nat));
    }
}

proof fn lemma_le_round_trip(s: Seq<u8>, v: nat)
    requires
        v == le_val(s),
        v < pow256(s.len()),
    ensures
        le_bytes(v, s.len()) == s,
    decreases s.len(),
{
    if s.len() > 0 {
        let tail = s.skip(1);
        lemma_pow256_step((s.len() - 1) as nat);
        assert(le_val(tail) < pow256(tail.len())) by {
            assert(v == s[0] + 256 * le_val(tail));
            assert(256 * le_val(tail) <= v);
            assert(256 * le_val(tail) < 256 * pow256(tail.len()));
        }
        assert(v % 256 == s[0] && v / 256 == le_val(tail)) by (nonlinear_arith)
            requires
                v == s[0] + 256 * le_val(tail),
                0 <= s[0] < 256,
                le_val(tail) >= 0,
        ;
        lemma_le_round_trip(tail, le_val(tail));
        assert(le_bytes(v, s.len()) =~= s);
    }
}

} // verus!
