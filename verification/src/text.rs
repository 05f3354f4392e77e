use vstd::prelude::*;

verus! {

// ---------------------------------------------------------------------------
// ASCII case folding.  Subkey and value lookups are case-insensitive in
// ASCII: the letters a-z fold to A-Z and every other character is kept.
// ---------------------------------------------------------------------------
pub open spec fn fold_char(c: char) -> char {
    if 'a' <= c && c <= 'z' {
        ((c as u32) - 32) as char
    } else {
        c
    }
}

/// The ASCII-uppercase image of a character sequence: the storage key under
/// which a name is filed.
pub open spec fn fold_seq(s: Seq<char>) -> Seq<char> {
    Seq::new(s.len(), |i: int| fold_char(s[i]))
}

/// ASCII lowercasing, used only to state the case-insensitivity law.
pub open spec fn lower_char(c: char) -> char {
    if 'A' <= c && c <= 'Z' {
        ((c as u32) + 32) as char
    } else {
        c
    }
}

pub open spec fn lower_seq(s: Seq<char>) -> Seq<char> {
    Seq::new(s.len(), |i: int| lower_char(s[i]))
}

pub proof fn lemma_fold_char_idempotent(c: char)
    ensures
        fold_char(fold_char(c)) == fold_char(c),
        fold_char(lower_char(c)) == fold_char(c),
{
}

/// Folding a name, its ASCII-uppercase form, and its ASCII-lowercase form all
/// give the same storage key.
pub proof fn lemma_fold_case_insensitive(s: Seq<char>)
    ensures
        fold_seq(fold_seq(s)) =~= fold_seq(s),
        fold_seq(lower_seq(s)) =~= fold_seq(s),
{
    assert forall|i: int| 0 <= i < s.len() implies fold_char(fold_char(s[i])) == fold_char(s[i])
        && fold_char(lower_char(s[i])) == fold_char(s[i]) by {
        lemma_fold_char_idempotent(s[i]);
    }
}

pub fn fold_char_exec(c: char) -> (r: char)
    ensures
        r == fold_char(c),
{
    match c {
        'a' => 'A',
        'b' => 'B',
        'c' => 'C',
        'd' => 'D',
        'e' => 'E',
        'f' => 'F',
        'g' => 'G',
        'h' => 'H',
        'i' => 'I',
        'j' => 'J',
        'k' => 'K',
        'l' => 'L',
        'm' => 'M',
        'n' => 'N',
        'o' => 'O',
        'p' => 'P',
        'q' => 'Q',
        'r' => 'R',
        's' => 'S',
        't' => 'T',
        'u' => 'U',
        'v' => 'V',
        'w' => 'W',
        'x' => 'X',
        'y' => 'Y',
        'z' => 'Z',
        _ => c,
    }
}

// ---------------------------------------------------------------------------
// String / character-vector bridging.
// ---------------------------------------------------------------------------
pub fn str_chars(s: &str) -> (r: Vec<char>)
    ensures
        r@ == s@,
{
    let n = s.unicode_len();
    let mut r: Vec<char> = Vec::new();
    let mut i: usize = 0;
    while i < n
        invariant
            n == s@.len(),
            i <= n,
            r@ == s@.take(i as int),
        decreases n - i,
    {
        let c = s.get_char(i);
        r.push(c);
        proof {
            assert(r@ =~= s@.take(i as int + 1));
        }
        i += 1;
    }
    proof {
        assert(r@ =~= s@);
    }
    r
}

/// Relies on `String::from_iter` over a character iterator collecting the
/// characters unchanged, in order.
#[verifier::external_body]
pub fn chars_to_string(v: &Vec<char>) -> (r: String)
    ensures
        r@ == v@,
{
    v.iter().collect()
}

pub fn fold_chars(v: &Vec<char>) -> (r: Vec<char>)
    ensures
        r@ == fold_seq(v@),
{
    let mut r: Vec<char> = Vec::new();
    let mut i: usize = 0;
    while i < v.len()
        invariant
            i <= v@.len(),
            r@ =~= fold_seq(v@).take(i as int),
        decreases v@.len() - i,
    {
        r.push(fold_char_exec(v[i]));
        proof {
            assert(r@ =~= fold_seq(v@).take(i as int + 1));
        }
        i += 1;
    }
    proof {
        assert(r@ =~= fold_seq(v@));
    }
    r
}

pub fn chars_eq(a: &Vec<char>, b: &Vec<char>) -> (r: bool)
    ensures
        r == (a@ == b@),
{
    if a.len() != b.len() {
        return false;
    }
    let mut i: usize = 0;
    while i < a.len()
        invariant
            a@.len() == b@.len(),
            i <= a@.len(),
            forall|j: int| 0 <= j < i ==> a@[j] == b@[j],
        decreases a@.len() - i,
    {
        if a[i] != b[i] {
            return false;
        }
        i += 1;
    }
    proof {
        assert(a@ =~= b@);
    }
    true
}

// ---------------------------------------------------------------------------
// Lexicographic order on character sequences; storage order is this order
// applied to folded names.
// ---------------------------------------------------------------------------
pub open spec fn lex_lt(a: Seq<char>, b: Seq<char>) -> bool
    decreases a.len(),
{
    if b.len() == 0 {
        false
    } else if a.len() == 0 {
        true
    } else if a[0] != b[0] {
        (a[0] as u32) < (b[0] as u32)
    } else {
        lex_lt(a.skip(1), b.skip(1))
    }
}

pub proof fn lemma_lex_trichotomy(a: Seq<char>, b: Seq<char>)
    ensures
        lex_lt(a, b) || lex_lt(b, a) || a =~= b,
        lex_lt(a, b) ==> !lex_lt(b, a) && !(a =~= b),
        lex_lt(b, a) ==> !lex_lt(a, b) && !(a =~= b),
    decreases a.len(),
{
    if a.len() > 0 && b.len() > 0 && a[0] != b[0] {
        vstd::utf8::char_u32_cast(a[0], a[0] as u32);
        vstd::utf8::char_u32_cast(b[0], b[0] as u32);
        assert((a[0] as u32) != (b[0] as u32));
    }
    if a.len() > 0 && b.len() > 0 && a[0] == b[0] {
        lemma_lex_trichotomy(a.skip(1), b.skip(1));
        if a.skip(1) =~= b.skip(1) {
            assert forall|j: int| 0 <= j < a.len() implies a[j] == b[j] by {
                if j > 0 {
                    assert(a.skip(1)[j - 1] == b.skip(1)[j - 1]);
                }
            }
            assert(a =~= b);
        }
        if a =~= b {
            assert(a.skip(1) =~= b.skip(1));
        }
    }
}

pub proof fn lemma_lex_transitive(a: Seq<char>, b: Seq<char>, c: Seq<char>)
    requires
        lex_lt(a, b),
        lex_lt(b, c),
    ensures
        lex_lt(a, c),
    decreases a.len() + b.len() + c.len(),
{
    if b.len() > 0 && c.len() > 0 && a.len() > 0 {
        if a[0] == b[0] && b[0] == c[0] {
            lemma_lex_transitive(a.skip(1), b.skip(1), c.skip(1));
        }
    }
}

/// Three-way comparison of two character sequences: negative, zero, positive
/// as `a` is below, equal to, or above `b` in lexicographic order.
pub fn lex_cmp(a: &Vec<char>, b: &Vec<char>) -> (r: i32)
    ensures
        (r == 0) == (a@ == b@),
        (r < 0) == lex_lt(a@, b@),
        (r > 0) == lex_lt(b@, a@),
{
    let mut i: usize = 0;
    proof {
        assert(a@.skip(0) =~= a@);
        assert(b@.skip(0) =~= b@);
    }
    loop
        invariant
            i <= a@.len(),
            i <= b@.len(),
            forall|j: int| 0 <= j < i ==> a@[j] == b@[j],
            lex_lt(a@, b@) == lex_lt(a@.skip(i as int), b@.skip(i as int)),
            lex_lt(b@, a@) == lex_lt(b@.skip(i as int), a@.skip(i as int)),
            (a@ == b@) == (a@.skip(i as int) == b@.skip(i as int)),
        decreases a@.len() - i,
    {
        proof {
            lemma_lex_trichotomy(a@, b@);
        }
        if i >= a.len() || i >= b.len() {
            let r: i32 = if a.len() < b.len() {
                -1
            } else if a.len() > b.len() {
                1
            } else {
                0
            };
            proof {
                if a@.len() == b@.len() {
                    assert(a@ =~= b@);
                }
            }
            return r;
        }
        let ca = a[i];
        let cb = b[i];
        if ca != cb {
            proof {
                assert(a@.skip(i as int)[0] == ca);
                assert(b@.skip(i as int)[0] == cb);
                if a@ == b@ {
                    assert(a@[i as int] == b@[i as int]);
                }
            }
            let r: i32 = if (ca as u32) < (cb as u32) {
                -1
            } else {
                1
            };
            return r;
        }
        proof {
            assert(a@.skip(i as int)[0] == ca && b@.skip(i as int)[0] == cb);
            assert(a@.skip(i as int).skip(1) =~= a@.skip(i as int + 1));
            assert(b@.skip(i as int).skip(1) =~= b@.skip(i as int + 1));
            if a@.skip(i as int) == b@.skip(i as int) {
                assert(a@.skip(i as int + 1) =~= b@.skip(i as int + 1));
            }
            if a@.skip(i as int + 1) == b@.skip(i as int + 1) {
                assert(a@.skip(i as int) =~= b@.skip(i as int));
            }
        }
        i += 1;
    }
}

// ---------------------------------------------------------------------------
// Hexadecimal and decimal digits.
// ---------------------------------------------------------------------------
pub open spec fn spec_hex_digit(c: char) -> Option<u8> {
    if '0' <= c && c <= '9' {
        Some(((c as u32) - 48) as u8)
    } else if 'a' <= c && c <= 'f' {
        Some(((c as u32) - 87) as u8)
    } else if 'A' <= c && c <= 'F' {
        Some(((c as u32) - 55) as u8)
    } else {
        None
    }
}

pub fn hex_digit_value(c: char) -> (r: Option<u8>)
    ensures
        r == spec_hex_digit(c),
{
    let u = c as u32;
    if 48 <= u && u <= 57 {
        Some((u - 48) as u8)
    } else if 97 <= u && u <= 102 {
        Some((u - 87) as u8)
    } else if 65 <= u && u <= 70 {
        Some((u - 55) as u8)
    } else {
        proof {
            assert(('0' as u32) == 48 && ('9' as u32) == 57);
            assert(('a' as u32) == 97 && ('f' as u32) == 102);
            assert(('A' as u32) == 65 && ('F' as u32) == 70);
        }
        None
    }
}

/// The character that renders a digit below sixteen, in lowercase.
pub open spec fn spec_digit_char(d: nat) -> char {
    if d == 0 {
        '0'
    } else if d == 1 {
        '1'
    } else if d == 2 {
        '2'
    } else if d == 3 {
        '3'
    } else if d == 4 {
        '4'
    } else if d == 5 {
        '5'
    } else if d == 6 {
        '6'
    } else if d == 7 {
        '7'
    } else if d == 8 {
        '8'
    } else if d == 9 {
        '9'
    } else if d == 10 {
        'a'
    } else if d == 11 {
        'b'
    } else if d == 12 {
        'c'
    } else if d == 13 {
        'd'
    } else if d == 14 {
        'e'
    } else {
        'f'
    }
}

pub fn digit_char(d: u64) -> (c: char)
    requires
        d < 16,
    ensures
        c == spec_digit_char(d as nat),
{
    match d {
        0 => '0',
        1 => '1',
        2 => '2',
        3 => '3',
        4 => '4',
        5 => '5',
        6 => '6',
        7 => '7',
        8 => '8',
        9 => '9',
        10 => 'a',
        11 => 'b',
        12 => 'c',
        13 => 'd',
        14 => 'e',
        _ => 'f',
    }
}

// ---------------------------------------------------------------------------
// Rendering numbers.
// ---------------------------------------------------------------------------

/// The digits of `n` in the given base, most significant first, with no
/// leading zeros (a lone zero renders as "0").
pub open spec fn radix_chars(n: nat, base: nat) -> Seq<char>
    recommends
        2 <= base <= 16,
    decreases n,
    via radix_chars_decreases
{
    if n < base || base < 2 {
        seq![spec_digit_char(if n < 16 { n } else { 0 })]
    } else {
        radix_chars(n / base, base).push(spec_digit_char(n % base))
    }
}

#[via_fn]
proof fn radix_chars_decreases(n: nat, base: nat) {
    if !(n < base || base < 2) {
        assert(n / base < n) by (nonlinear_arith)
            requires
                n >= base && base >= 2,
        ;
    }
}

pub fn u64_to_radix(n: u64, base: u64) -> (r: Vec<char>)
    requires
        base == 10 || base == 16,
    ensures
        r@ == radix_chars(n as nat, base as nat),
{
    let mut r: Vec<char> = Vec::new();
    let mut m: u64 = n;
    loop
        invariant
            base == 10 || base == 16,
            radix_chars(n as nat, base as nat) =~= radix_chars(m as nat, base as nat) + r@,
        decreases m,
    {
        if m < base {
            r.insert(0, digit_char(m));
            proof {
                assert(radix_chars(m as nat, base as nat) =~= seq![spec_digit_char(m as nat)]);
                assert(radix_chars(n as nat, base as nat) =~= r@);
            }
            return r;
        }
        let d = m % base;
        r.insert(0, digit_char(d));
        proof {
            assert(radix_chars(m as nat, base as nat) =~= radix_chars((m / base) as nat,
                base as nat).push(spec_digit_char((m % base) as nat)));
            assert(radix_chars(m as nat, base as nat) + r@.skip(1) =~= radix_chars(
                (m / base) as nat,
                base as nat,
            ) + r@);
        }
        m = m / base;
    }
}

/// `radix_chars`, zero-padded on the left to at least `width` characters.
pub open spec fn padded_radix_chars(n: nat, base: nat, width: nat) -> Seq<char> {
    let d = radix_chars(n, base);
    if d.len() >= width {
        d
    } else {
        Seq::new((width - d.len()) as nat, |i: int| '0') + d
    }
}

pub fn u64_to_radix_padded(n: u64, base: u64, width: usize) -> (r: Vec<char>)
    requires
        base == 10 || base == 16,
    ensures
        r@ == padded_radix_chars(n as nat, base as nat, width as nat),
{
    let mut r = u64_to_radix(n, base);
    while r.len() < width
        invariant
            base == 10 || base == 16,
            padded_radix_chars(n as nat, base as nat, width as nat) == padded_radix_chars(
                n as nat,
                base as nat,
                width as nat,
            ),
            r@.len() >= radix_chars(n as nat, base as nat).len(),
            padded_radix_chars(n as nat, base as nat, width as nat) =~= (if r@.len() >= width {
                r@
            } else {
                Seq::new((width - r@.len()) as nat, |i: int| '0') + r@
            }),
        decreases width - r@.len(),
    {
        r.insert(0, '0');
    }
    proof {
        assert(padded_radix_chars(n as nat, base as nat, width as nat) =~= r@);
    }
    r
}

// ---------------------------------------------------------------------------
// Parsing numbers.
// ---------------------------------------------------------------------------

/// Every character is a digit of the base, and there is at least one.
pub open spec fn is_radix_seq(s: Seq<char>, base: nat) -> bool {
    s.len() > 0 && (forall|i: int|
        0 <= i < s.len() ==> (#[trigger] spec_hex_digit(s[i])) is Some && spec_hex_digit(
            s[i],
        ).unwrap() < base)
}

/// The value of a digit string, most significant first.
pub open spec fn radix_val(s: Seq<char>, base: nat) -> nat
    decreases s.len(),
{
    if s.len() == 0 {
        0
    } else {
        radix_val(s.drop_last(), base) * base + spec_hex_digit(s.last()).unwrap_or(0) as nat
    }
}

proof fn lemma_radix_val_take_le(s: Seq<char>, base: nat, i: int)
    requires
        2 <= base,
        0 <= i <= s.len(),
    ensures
        radix_val(s.take(i), base) <= radix_val(s, base),
    decreases s.len() - i,
{
    if i < s.len() {
        lemma_radix_val_take_le(s, base, i + 1);
        let t = s.take(i + 1);
        assert(t.drop_last() =~= s.take(i));
        let v = radix_val(s.take(i), base);
        assert(radix_val(t, base) == v * base + spec_hex_digit(t.last()).unwrap_or(0) as nat);
        assert(v * base >= v) by (nonlinear_arith)
            requires
                base >= 2,
                v >= 0,
        ;
    } else {
        assert(s.take(i) =~= s);
    }
}

/// Parse an unsigned number in the given base.  Returns the value when the
/// text is a digit string whose value fits in 64 bits, and nothing otherwise.
pub fn parse_radix_u64(s: &Vec<char>, base: u64) -> (r: Option<u64>)
    requires
        base == 10 || base == 16,
    ensures
        r is Some <==> is_radix_seq(s@, base as nat) && radix_val(s@, base as nat) <= u64::MAX,
        r is Some ==> r.unwrap() as nat == radix_val(s@, base as nat),
{
    if s.len() == 0 {
        return None;
    }
    let mut acc: u64 = 0;
    let mut i: usize = 0;
    while i < s.len()
        invariant
            base == 10 || base == 16,
            i <= s@.len(),
            acc as nat == radix_val(s@.take(i as int), base as nat),
            forall|j: int|
                0 <= j < i ==> (#[trigger] spec_hex_digit(s@[j])) is Some && spec_hex_digit(
                    s@[j],
                ).unwrap() < base,
        decreases s@.len() - i,
    {
        let d = match hex_digit_value(s[i]) {
            Some(d) => d,
            None => {
                return None;
            },
        };
        if (d as u64) >= base {
            return None;
        }
        proof {
            assert(s@.take(i as int + 1).drop_last() =~= s@.take(i as int));
            assert(s@.take(i as int + 1).last() == s@[i as int]);
        }
        if acc > (u64::MAX - (d as u64)) / base {
            proof {
                assert(radix_val(s@.take(i as int + 1), base as nat) == acc as nat * base as nat
                    + d as nat);
                assert(acc as nat * base as nat + d as nat > u64::MAX) by (nonlinear_arith)
                    requires
                        acc as int > (u64::MAX as int - d as int) / (base as int),
                        2 <= base <= 16,
                        d < base,
                ;
                lemma_radix_val_take_le(s@, base as nat, i as int + 1);
            }
            return None;
        }
        proof {
            assert(acc as nat * base as nat + d as nat <= u64::MAX) by (nonlinear_arith)
                requires
                    acc as int <= (u64::MAX as int - d as int) / (base as int),
                    2 <= base <= 16,
                    d < base,
            ;
        }
        acc = acc * base + (d as u64);
        i += 1;
    }
    proof {
        assert(s@.take(s@.len() as int) =~= s@);
    }
    Some(acc)
}


pub fn lower_char_exec(c: char) -> (r: char)
    ensures
        r == lower_char(c),
{
    match c {
        'A' => 'a',
        'B' => 'b',
        'C' => 'c',
        'D' => 'd',
        'E' => 'e',
        'F' => 'f',
        'G' => 'g',
        'H' => 'h',
        'I' => 'i',
        'J' => 'j',
        'K' => 'k',
        'L' => 'l',
        'M' => 'm',
        'N' => 'n',
        'O' => 'o',
        'P' => 'p',
        'Q' => 'q',
        'R' => 'r',
        'S' => 's',
        'T' => 't',
        'U' => 'u',
        'V' => 'v',
        'W' => 'w',
        'X' => 'x',
        'Y' => 'y',
        'Z' => 'z',
        _ => c,
    }
}

pub fn lower_chars(v: &Vec<char>) -> (r: Vec<char>)
    ensures
        r@ == lower_seq(v@),
{
    let mut r: Vec<char> = Vec::new();
    let mut i: usize = 0;
    while i < v.len()
        invariant
            i <= v@.len(),
            r@ =~= lower_seq(v@).take(i as int),
        decreases v@.len() - i,
    {
        r.push(lower_char_exec(v[i]));
        proof {
            assert(r@ =~= lower_seq(v@).take(i as int + 1));
        }
        i += 1;
    }
    proof {
        assert(r@ =~= lower_seq(v@));
    }
    r
}

/// Append the characters of `s` to `out`.
pub fn push_str_chars(out: &mut Vec<char>, s: &str)
    ensures
        final (out)@ == old(out)@ + s@,
{
    let n = s.unicode_len();
    let mut i: usize = 0;
    while i < n
        invariant
            n == s@.len(),
            i <= n,
            out@ =~= old(out)@ + s@.take(i as int),
        decreases n - i,
    {
        out.push(s.get_char(i));
        proof {
            assert(out@ =~= old(out)@ + s@.take(i as int + 1));
        }
        i += 1;
    }
    proof {
        assert(out@ =~= old(out)@ + s@);
    }
}

/// Append a copy of `v` to `out`.
pub fn push_chars(out: &mut Vec<char>, v: &Vec<char>)
    ensures
        final (out)@ == old(out)@ + v@,
{
    let mut i: usize = 0;
    while i < v.len()
        invariant
            i <= v@.len(),
            out@ =~= old(out)@ + v@.take(i as int),
        decreases v@.len() - i,
    {
        out.push(v[i]);
        proof {
            assert(out@ =~= old(out)@ + v@.take(i as int + 1));
        }
        i += 1;
    }
    proof {
        assert(out@ =~= old(out)@ + v@);
    }
}


// ---------------------------------------------------------------------------
// Whitespace trimming and prefix tests (ASCII whitespace).
// ---------------------------------------------------------------------------
pub open spec fn is_space(c: char) -> bool {
    c == ' ' || c == '\t' || c == '\r' || c == '\n' || c == '\u{b}' || c == '\u{c}'
}

pub fn is_space_exec(c: char) -> (r: bool)
    ensures
        r == is_space(c),
{
    c == ' ' || c == '\t' || c == '\r' || c == '\n' || c == '\u{b}' || c == '\u{c}'
}

pub open spec fn trim_start_spec(s: Seq<char>) -> Seq<char>
    decreases s.len(),
{
    if s.len() > 0 && is_space(s[0]) {
        trim_start_spec(s.skip(1))
    } else {
        s
    }
}

pub open spec fn trim_end_spec(s: Seq<char>) -> Seq<char>
    decreases s.len(),
{
    if s.len() > 0 && is_space(s.last()) {
        trim_end_spec(s.drop_last())
    } else {
        s
    }
}

pub open spec fn trim_spec(s: Seq<char>) -> Seq<char> {
    trim_end_spec(trim_start_spec(s))
}

proof fn lemma_trim_start_idx(s: Seq<char>, start: int)
    requires
        0 <= start <= s.len(),
        forall|j: int| 0 <= j < start ==> is_space(s[j]),
        start < s.len() ==> !is_space(s[start]),
    ensures
        trim_start_spec(s) == s.skip(start),
    decreases start,
{
    if start == 0 {
        if s.len() > 0 {
            assert(!is_space(s[0]));
        }
        assert(s.skip(0) =~= s);
    } else {
        assert(is_space(s[0]));
        assert(forall|j: int| 0 <= j < s.skip(1).len() ==> s.skip(1)[j] == s[j + 1]);
        lemma_trim_start_idx(s.skip(1), start - 1);
        assert(s.skip(1).skip(start - 1) =~= s.skip(start));
    }
}

proof fn lemma_trim_end_idx(s: Seq<char>, end: int)
    requires
        0 <= end <= s.len(),
        forall|j: int| end <= j < s.len() ==> is_space(s[j]),
        end > 0 ==> !is_space(s[end - 1]),
    ensures
        trim_end_spec(s) == s.take(end),
    decreases s.len(),
{
    if end == s.len() {
        if s.len() > 0 {
            assert(!is_space(s.last()));
        }
        assert(s.take(end) =~= s);
    } else {
        assert(is_space(s.last()));
        lemma_trim_end_idx(s.drop_last(), end);
        assert(s.drop_last().take(end) =~= s.take(end));
    }
}

/// Trim ASCII whitespace from both ends.
pub fn trim_chars(v: &Vec<char>) -> (r: Vec<char>)
    ensures
        r@ == trim_spec(v@),
{
    let mut start: usize = 0;
    while start < v.len() && is_space_exec(v[start])
        invariant
            start <= v@.len(),
            forall|j: int| 0 <= j < start ==> is_space(v@[j]),
        decreases v@.len() - start,
    {
        start += 1;
    }
    let mut end: usize = v.len();
    while end > start && is_space_exec(v[end - 1])
        invariant
            start <= end <= v@.len(),
            forall|j: int| end <= j < v@.len() ==> is_space(v@[j]),
        decreases end,
    {
        end -= 1;
    }
    proof {
        lemma_trim_start_idx(v@, start as int);
        let t = v@.skip(start as int);
        assert(forall|j: int| 0 <= j < t.len() ==> t[j] == v@[j + start]);
        lemma_trim_end_idx(t, end - start);
        assert(trim_spec(v@) == t.take(end - start));
    }
    let mut r: Vec<char> = Vec::new();
    let mut i: usize = start;
    while i < end
        invariant
            start <= i <= end <= v@.len(),
            r@ =~= v@.subrange(start as int, i as int),
        decreases end - i,
    {
        r.push(v[i]);
        proof {
            assert(r@ =~= v@.subrange(start as int, i as int + 1));
        }
        i += 1;
    }
    proof {
        assert(r@ =~= v@.skip(start as int).take(end - start));
    }
    r
}

/// Trim ASCII whitespace from the end only.
pub fn trim_end_chars(v: &Vec<char>) -> (r: Vec<char>)
    ensures
        r@ == trim_end_spec(v@),
{
    let mut end: usize = v.len();
    while end > 0 && is_space_exec(v[end - 1])
        invariant
            end <= v@.len(),
            forall|j: int| end <= j < v@.len() ==> is_space(v@[j]),
        decreases end,
    {
        end -= 1;
    }
    proof {
        lemma_trim_end_idx(v@, end as int);
    }
    let mut r: Vec<char> = Vec::new();
    let mut i: usize = 0;
    while i < end
        invariant
            i <= end <= v@.len(),
            r@ =~= v@.take(i as int),
        decreases end - i,
    {
        r.push(v[i]);
        proof {
            assert(r@ =~= v@.take(i as int + 1));
        }
        i += 1;
    }
    r
}

/// Trim ASCII whitespace from the start only.
pub fn trim_start_chars(v: &Vec<char>) -> (r: Vec<char>)
    ensures
        r@ == trim_start_spec(v@),
{
    let mut start: usize = 0;
    while start < v.len() && is_space_exec(v[start])
        invariant
            start <= v@.len(),
            forall|j: int| 0 <= j < start ==> is_space(v@[j]),
        decreases v@.len() - start,
    {
        start += 1;
    }
    proof {
        lemma_trim_start_idx(v@, start as int);
    }
    let mut r: Vec<char> = Vec::new();
    let mut i: usize = start;
    while i < v.len()
        invariant
            start <= i <= v@.len(),
            r@ =~= v@.subrange(start as int, i as int),
        decreases v@.len() - i,
    {
        r.push(v[i]);
        proof {
            assert(r@ =~= v@.subrange(start as int, i as int + 1));
        }
        i += 1;
    }
    proof {
        assert(r@ =~= v@.skip(start as int));
    }
    r
}

pub open spec fn starts_with(s: Seq<char>, p: Seq<char>) -> bool {
    s.len() >= p.len() && s.take(p.len() as int) == p
}

pub fn starts_with_lit(v: &Vec<char>, p: &str) -> (r: bool)
    ensures
        r == starts_with(v@, p@),
{
    let n = p.unicode_len();
    if v.len() < n {
        proof {
            if starts_with(v@, p@) {
                assert(v@.len() >= p@.len());
            }
        }
        return false;
    }
    let mut i: usize = 0;
    while i < n
        invariant
            n == p@.len(),
            n <= v@.len(),
            i <= n,
            forall|j: int| 0 <= j < i ==> v@[j] == p@[j],
        decreases n - i,
    {
        if v[i] != p.get_char(i) {
            proof {
                if starts_with(v@, p@) {
                    assert(v@.take(p@.len() as int)[i as int] == p@[i as int]);
                }
            }
            return false;
        }
        i += 1;
    }
    proof {
        assert(v@.take(p@.len() as int) =~= p@);
    }
    true
}

/// The characters from position `from` on.
pub fn skip_chars(v: &Vec<char>, from: usize) -> (r: Vec<char>)
    requires
        from <= v@.len(),
    ensures
        r@ == v@.skip(from as int),
{
    let mut r: Vec<char> = Vec::new();
    let mut i: usize = from;
    while i < v.len()
        invariant
            from <= i <= v@.len(),
            r@ =~= v@.subrange(from as int, i as int),
        decreases v@.len() - i,
    {
        r.push(v[i]);
        proof {
            assert(r@ =~= v@.subrange(from as int, i as int + 1));
        }
        i += 1;
    }
    proof {
        assert(r@ =~= v@.skip(from as int));
    }
    r
}

/// The characters of positions `from..to`.
pub fn sub_chars(v: &Vec<char>, from: usize, to: usize) -> (r: Vec<char>)
    requires
        from <= to <= v@.len(),
    ensures
        r@ == v@.subrange(from as int, to as int),
{
    let mut r: Vec<char> = Vec::new();
    let mut i: usize = from;
    while i < to
        invariant
            from <= i <= to <= v@.len(),
            r@ =~= v@.subrange(from as int, i as int),
        decreases to - i,
    {
        r.push(v[i]);
        proof {
            assert(r@ =~= v@.subrange(from as int, i as int + 1));
        }
        i += 1;
    }
    r
}


/// A copy of a segment list; the views are unchanged.
pub fn sub_segs(v: &Vec<Vec<char>>) -> (r: Vec<Vec<char>>)
    ensures
        r@.len() == v@.len(),
        forall|i: int| 0 <= i < v@.len() ==> (#[trigger] r@[i])@ == v@[i]@,
{
    let mut r: Vec<Vec<char>> = Vec::new();
    let mut i: usize = 0;
    while i < v.len()
        invariant
            i <= v@.len(),
            r@.len() == i,
            forall|j: int| 0 <= j < i ==> (#[trigger] r@[j])@ == v@[j]@,
        decreases v@.len() - i,
    {
        let c = sub_chars(&v[i], 0, v[i].len());
        proof {
            assert(c@ =~= v@[i as int]@);
        }
        r.push(c);
        i += 1;
    }
    r
}

} // verus!
