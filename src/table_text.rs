//! The text form of a cost table: a header line, then one `from,to,cost`
//! record per line.
use vstd::prelude::*;

verus! {

/// Index of the first `c` in `b`, or `b.len()` where there is none.
pub open spec fn find_byte(b: Seq<u8>, c: u8) -> nat
    decreases b.len(),
{
    if b.len() == 0 {
        0
    } else if b[0] == c {
        0
    } else {
        1 + find_byte(b.drop_first(), c)
    }
}

/// `b` cut at every `c` (empty pieces kept; no `c` gives one piece).
pub open spec fn split_on(b: Seq<u8>, c: u8) -> Seq<Seq<u8>>
    decreases b.len(),
{
    let i = find_byte(b, c);
    if i >= b.len() {
        seq![b]
    } else {
        seq![b.take(i as int)] + split_on(b.skip((i + 1) as int), c)
    }
}

/// A line without the carriage return that may end it.
pub open spec fn strip_cr(l: Seq<u8>) -> Seq<u8> {
    if l.len() > 0 && l.last() == 13 {
        l.drop_last()
    } else {
        l
    }
}

/// The lines of a text: pieces between line feeds, each without a final
/// carriage return; a final line feed ends the last line, and an empty text
/// has no lines.
pub open spec fn text_lines(b: Seq<u8>) -> Seq<Seq<u8>>
    decreases b.len(),
{
    if b.len() == 0 {
        seq![]
    } else {
        let i = find_byte(b, 10);
        if i >= b.len() {
            seq![strip_cr(b)]
        } else {
            seq![strip_cr(b.take(i as int))] + text_lines(b.skip((i + 1) as int))
        }
    }
}

proof fn lemma_find_byte(b: Seq<u8>, c: u8)
    ensures
        find_byte(b, c) <= b.len(),
        forall|j: int| 0 <= j < find_byte(b, c) ==> b[j] != c,
        find_byte(b, c) < b.len() ==> b[find_byte(b, c) as int] == c,
    decreases b.len(),
{
    if b.len() > 0 && b[0] != c {
        lemma_find_byte(b.drop_first(), c);
        assert forall|j: int| 0 <= j < find_byte(b, c) implies b[j] != c by {
            if j > 0 {
                assert(b[j] == b.drop_first()[j - 1]);
            }
        }
    }
}

/// Position of the first `c` in `b` at or after `from`, or `b.len()`.
fn find_from(b: &[u8], from: usize, c: u8) -> (i: usize)
    requires
        from <= b@.len(),
    ensures
        i == from + find_byte(b@.skip(from as int), c),
{
    let mut i = from;
    while i < b.len() && b[i] != c
        invariant
            from <= i <= b@.len(),
            forall|j: int| from <= j < i ==> b@[j] != c,
        decreases b.len() - i,
    {
        i = i + 1;
    }
    proof {
        let s = b@.skip(from as int);
        lemma_find_byte(s, c);
        let f = find_byte(s, c) as int;
        if f < i - from {
            assert(s[f] == b@[from + f]);
        }
        if f > i - from {
            assert(s[i - from] == b@[i as int]);
        }
    }
    i
}

/// Bytes `from..to` of `b`.
fn copy_range(b: &[u8], from: usize, to: usize) -> (r: Vec<u8>)
    requires
        from <= to <= b@.len(),
    ensures
        r@ == b@.subrange(from as int, to as int),
{
    let mut r: Vec<u8> = Vec::new();
    let mut i = from;
    while i < to
        invariant
            from <= i <= to <= b@.len(),
            r@ == b@.subrange(from as int, i as int),
        decreases to - i,
    {
        r.push(b[i]);
        i = i + 1;
        assert(r@ =~= b@.subrange(from as int, i as int));
    }
    r
}

/// The value of each byte vector, in order.
pub open spec fn byte_views(v: Seq<Vec<u8>>) -> Seq<Seq<u8>> {
    v.map_values(|x: Vec<u8>| x@)
}

/// Cuts `b` at every `c`.
fn split_bytes(b: &[u8], c: u8) -> (r: Vec<Vec<u8>>)
    ensures
        byte_views(r@) == split_on(b@, c),
{
    let mut r: Vec<Vec<u8>> = Vec::new();
    let mut from: usize = 0;
    assert(b@.skip(0) =~= b@);
    assert(byte_views(r@) + split_on(b@, c) =~= split_on(b@, c));
    loop
        invariant
            from <= b@.len(),
            byte_views(r@) + split_on(b@.skip(from as int), c) == split_on(b@, c),
        decreases b@.len() - from,
    {
        let i = find_from(b, from, c);
        let ghost s = b@.skip(from as int);
        proof {
            lemma_find_byte(s, c);
        }
        let piece = copy_range(b, from, i);
        proof {
            assert(piece@ =~= s.take((i - from) as int));
        }
        let ghost before = r@;
        r.push(piece);
        assert(byte_views(r@) =~= byte_views(before).push(piece@));
        if i >= b.len() {
            assert(s.take(s.len() as int) =~= s);
            assert(split_on(s, c) == seq![s]);
            assert(byte_views(r@) =~= byte_views(before) + split_on(s, c));
            return r;
        }
        proof {
            assert(s.skip((i - from) + 1) =~= b@.skip(i + 1));
            assert(split_on(s, c) == seq![s.take((i - from) as int)] + split_on(s.skip((i - from) + 1), c));
            assert(byte_views(r@) + split_on(b@.skip(i + 1), c) =~= byte_views(before) + split_on(s, c));
        }
        from = i + 1;
    }
}

/// The lines of `b`.
fn split_lines(b: &[u8]) -> (r: Vec<Vec<u8>>)
    ensures
        byte_views(r@) == text_lines(b@),
{
    let mut r: Vec<Vec<u8>> = Vec::new();
    let mut from: usize = 0;
    assert(b@.skip(0) =~= b@);
    assert(byte_views(r@) + text_lines(b@) =~= text_lines(b@));
    while from < b.len()
        invariant
            from <= b@.len(),
            byte_views(r@) + text_lines(b@.skip(from as int)) == text_lines(b@),
        decreases b@.len() - from,
    {
        let i = find_from(b, from, 10);
        let ghost s = b@.skip(from as int);
        proof {
            lemma_find_byte(s, 10);
        }
        let mut end = i;
        if end > from && b[end - 1] == 13 {
            end = end - 1;
        }
        let piece = copy_range(b, from, end);
        proof {
            lemma_find_byte(s, 10);
            assert(piece@ =~= strip_cr(s.take((i - from) as int)));
        }
        let ghost before = r@;
        r.push(piece);
        assert(byte_views(r@) =~= byte_views(before).push(piece@));
        if i >= b.len() {
            assert(s.take(s.len() as int) =~= s);
            assert(text_lines(s) == seq![strip_cr(s)]);
            assert(byte_views(r@) =~= byte_views(before) + text_lines(s));
            return r;
        }
        proof {
            assert(s.skip((i - from) + 1) =~= b@.skip(i + 1));
            assert(text_lines(s) == seq![strip_cr(s.take((i - from) as int))] + text_lines(s.skip((i - from) + 1)));
            assert(byte_views(r@) + text_lines(b@.skip(i + 1)) =~= byte_views(before) + text_lines(s));
        }
        from = i + 1;
    }
    assert(b@.skip(from as int) =~= Seq::<u8>::empty());
    assert(byte_views(r@) + text_lines(b@.skip(from as int)) =~= byte_views(r@));
    r
}

/// A white-space byte: space, tab, line feed, vertical tab, form feed or
/// carriage return.
pub open spec fn is_space(c: u8) -> bool {
    c == 32 || (9 <= c <= 13)
}

/// Number of white-space bytes that begin `f`.
pub open spec fn lead_spaces(f: Seq<u8>) -> nat
    decreases f.len(),
{
    if f.len() > 0 && is_space(f[0]) {
        1 + lead_spaces(f.drop_first())
    } else {
        0
    }
}

/// Number of white-space bytes that end `f`.
pub open spec fn trail_spaces(f: Seq<u8>) -> nat
    decreases f.len(),
{
    if f.len() > 0 && is_space(f.last()) {
        1 + trail_spaces(f.drop_last())
    } else {
        0
    }
}

/// `f` without white space at either end.
pub open spec fn trimmed(f: Seq<u8>) -> Seq<u8> {
    let s = f.skip(lead_spaces(f) as int);
    s.take(s.len() - trail_spaces(s))
}

proof fn lemma_lead_spaces(f: Seq<u8>, k: int)
    requires
        0 <= k <= f.len(),
        forall|j: int| 0 <= j < k ==> is_space(f[j]),
    ensures
        lead_spaces(f) == k + lead_spaces(f.skip(k)),
    decreases k,
{
    if k > 0 {
        assert(is_space(f[0]));
        assert forall|j: int| 0 <= j < k - 1 implies is_space(f.drop_first()[j]) by {
            assert(f.drop_first()[j] == f[j + 1]);
        }
        lemma_lead_spaces(f.drop_first(), k - 1);
        assert(f.drop_first().skip(k - 1) =~= f.skip(k));
    } else {
        assert(f.skip(0) =~= f);
    }
}

proof fn lemma_trail_spaces(f: Seq<u8>, k: int)
    requires
        0 <= k <= f.len(),
        forall|j: int| f.len() - k <= j < f.len() ==> is_space(f[j]),
    ensures
        trail_spaces(f) == k + trail_spaces(f.take(f.len() - k)),
    decreases k,
{
    if k > 0 {
        assert(is_space(f[f.len() - 1]));
        assert forall|j: int| f.drop_last().len() - (k - 1) <= j < f.drop_last().len() implies is_space(f.drop_last()[j]) by {
            assert(f.drop_last()[j] == f[j]);
        }
        lemma_trail_spaces(f.drop_last(), k - 1);
        assert(f.drop_last().take(f.len() - k) =~= f.take(f.len() - k));
    } else {
        assert(f.take(f.len() as int) =~= f);
    }
}

/// `f` without white space at either end.
fn trim(f: &Vec<u8>) -> (r: Vec<u8>)
    ensures
        r@ == trimmed(f@),
{
    let mut a: usize = 0;
    while a < f.len() && (f[a] == 32 || (9 <= f[a] && f[a] <= 13))
        invariant
            a <= f@.len(),
            forall|j: int| 0 <= j < a ==> is_space(f@[j]),
        decreases f.len() - a,
    {
        a = a + 1;
    }
    proof {
        lemma_lead_spaces(f@, a as int);
        if a < f.len() {
            assert(f@.skip(a as int)[0] == f@[a as int]);
        }
    }
    let ghost s = f@.skip(a as int);
    let mut z: usize = f.len();
    while z > a && (f[z - 1] == 32 || (9 <= f[z - 1] && f[z - 1] <= 13))
        invariant
            a <= z <= f@.len(),
            s == f@.skip(a as int),
            forall|j: int| z <= j < f@.len() ==> is_space(f@[j]),
        decreases z,
    {
        z = z - 1;
    }
    proof {
        let k = f@.len() - z;
        assert forall|j: int| s.len() - k <= j < s.len() implies is_space(s[j]) by {
            assert(s[j] == f@[a + j]);
        }
        lemma_trail_spaces(s, k);
        let t = s.take(s.len() - k);
        if t.len() > 0 {
            assert(t.last() == f@[z - 1]);
        }
    }
    let r = copy_vec_range(f, a, z);
    assert(r@ =~= s.take(s.len() - (f@.len() - z)));
    r
}

/// Entries `from..to` of `f`.
fn copy_vec_range(f: &Vec<u8>, from: usize, to: usize) -> (r: Vec<u8>)
    requires
        from <= to <= f@.len(),
    ensures
        r@ == f@.subrange(from as int, to as int),
{
    copy_range(f.as_slice(), from, to)
}

/// A decimal digit.
pub open spec fn is_digit(c: u8) -> bool {
    48 <= c <= 57
}

/// The bytes are all decimal digits.
pub open spec fn all_digits(d: Seq<u8>) -> bool {
    forall|j: int| 0 <= j < d.len() ==> is_digit(#[trigger] d[j])
}

/// The number that decimal digits `d` write (0 for no digits).
pub open spec fn digits_value(d: Seq<u8>) -> nat
    decreases d.len(),
{
    if d.len() == 0 {
        0
    } else {
        digits_value(d.drop_last()) * 10 + (d.last() - 48) as nat
    }
}

/// `f` without one leading `+`.
pub open spec fn unsigned_part(f: Seq<u8>) -> Seq<u8> {
    if f.len() > 0 && f[0] == 43 {
        f.drop_first()
    } else {
        f
    }
}

/// A node index: decimal digits, with an optional leading `+`, naming a
/// number that fits in `usize`.
pub open spec fn node_field(f: Seq<u8>) -> Option<usize> {
    let d = unsigned_part(f);
    if d.len() > 0 && all_digits(d) && digits_value(d) <= usize::MAX {
        Some(digits_value(d) as usize)
    } else {
        None
    }
}

/// Cost units per unit of written cost: six decimal places are kept.
pub const UNITS_PER_COST: u64 = 1_000_000;

/// `10^k`.
pub open spec fn pow10(k: nat) -> nat
    decreases k,
{
    if k == 0 {
        1
    } else {
        10 * pow10((k - 1) as nat)
    }
}

/// The first six digits of a fraction `d` in millionths.
pub open spec fn fraction_units(d: Seq<u8>) -> nat {
    let k = if d.len() <= 6 { d.len() } else { 6 };
    digits_value(d.take(k as int)) * pow10((6 - k) as nat)
}

/// Every byte of `d` from position `k` on is the digit 0.
pub open spec fn zeros_from(d: Seq<u8>, k: int) -> bool {
    forall|j: int| k <= j < d.len() ==> #[trigger] d[j] == 48
}

/// A cost: decimal digits with an optional fraction after a `.` and an
/// optional leading `+`, at least one digit in all, no digit but 0 past the
/// sixth decimal place, in millionths, fitting in `u64`.
pub open spec fn cost_field(f: Seq<u8>) -> Option<u64> {
    let d = unsigned_part(f);
    let i = find_byte(d, 46);
    let whole = d.take(i as int);
    let frac = if i < d.len() { d.skip((i + 1) as int) } else { Seq::<u8>::empty() };
    let v = digits_value(whole) * 1_000_000 + fraction_units(frac);
    if whole.len() + frac.len() > 0 && all_digits(whole) && all_digits(frac) && zeros_from(frac, 6) && v <= u64::MAX {
        Some(v as u64)
    } else {
        None
    }
}

proof fn lemma_digits_grow(d: Seq<u8>, k: int)
    requires
        0 <= k <= d.len(),
        all_digits(d),
    ensures
        digits_value(d.take(k)) <= digits_value(d),
    decreases d.len() - k,
{
    if k < d.len() {
        lemma_digits_grow(d, k + 1);
        assert(d.take(k + 1).drop_last() =~= d.take(k));
    } else {
        assert(d.take(k) =~= d);
    }
}

/// The number written by the digits `d[from..to]`, if they are all digits
/// and it is at most `limit`.
fn digits_upto(d: &Vec<u8>, from: usize, to: usize, limit: u128) -> (r: Option<u128>)
    requires
        from <= to <= d@.len(),
    ensures
        r == (if all_digits(d@.subrange(from as int, to as int)) && digits_value(d@.subrange(from as int, to as int)) <= limit {
            Some(digits_value(d@.subrange(from as int, to as int)) as u128)
        } else {
            None
        }),
{
    let ghost w = d@.subrange(from as int, to as int);
    let mut v: u128 = 0;
    let mut i = from;
    while i < to
        invariant
            from <= i <= to <= d@.len(),
            w == d@.subrange(from as int, to as int),
            all_digits(w.take(i - from)),
            v == digits_value(w.take(i - from)),
            v <= limit,
        decreases to - i,
    {
        let c = d[i];
        assert(w[i - from] == c);
        if c < 48 || c > 57 {
            return None;
        }
        let digit = (c - 48) as u128;
        assert(w.take(i - from + 1).drop_last() =~= w.take(i - from));
        if digit > limit || v > (limit - digit) / 10 {
            proof {
                if all_digits(w) {
                    lemma_digits_grow(w, i - from + 1);
                }
            }
            return None;
        }
        v = v * 10 + digit;
        i = i + 1;
    }
    assert(w.take(to - from) =~= w);
    Some(v)
}

/// Whether `d[from..to]` are all digits.
fn digits_only(d: &Vec<u8>, from: usize, to: usize) -> (b: bool)
    requires
        from <= to <= d@.len(),
    ensures
        b == all_digits(d@.subrange(from as int, to as int)),
{
    let mut i = from;
    while i < to
        invariant
            from <= i <= to <= d@.len(),
            forall|j: int| from <= j < i ==> is_digit(d@[j]),
        decreases to - i,
    {
        if d[i] < 48 || d[i] > 57 {
            assert(d@.subrange(from as int, to as int)[i - from] == d@[i as int]);
            return false;
        }
        i = i + 1;
    }
    assert forall|j: int| 0 <= j < to - from implies is_digit(#[trigger] d@.subrange(from as int, to as int)[j]) by {
        assert(d@.subrange(from as int, to as int)[j] == d@[from + j]);
    }
    true
}

/// Whether `d[from..to]` are all the digit 0.
fn zeros_only(d: &Vec<u8>, from: usize, to: usize) -> (b: bool)
    requires
        from <= to <= d@.len(),
    ensures
        b == (forall|j: int| from <= j < to ==> d@[j] == 48),
{
    let mut i = from;
    while i < to
        invariant
            from <= i <= to <= d@.len(),
            forall|j: int| from <= j < i ==> d@[j] == 48,
        decreases to - i,
    {
        if d[i] != 48 {
            return false;
        }
        i = i + 1;
    }
    true
}

/// Reads a node index field.
fn read_node(f: &Vec<u8>) -> (r: Option<usize>)
    ensures
        r == node_field(f@),
{
    let from: usize = if f.len() > 0 && f[0] == 43 { 1 } else { 0 };
    let ghost d = unsigned_part(f@);
    assert(d =~= f@.subrange(from as int, f@.len() as int));
    if from == f.len() {
        return None;
    }
    match digits_upto(f, from, f.len(), usize::MAX as u128) {
        Some(v) => Some(v as usize),
        None => None,
    }
}

proof fn lemma_digits_bound(d: Seq<u8>)
    requires
        all_digits(d),
    ensures
        digits_value(d) < pow10(d.len()),
    decreases d.len(),
{
    if d.len() > 0 {
        lemma_digits_bound(d.drop_last());
        let a = digits_value(d.drop_last());
        let p = pow10((d.len() - 1) as nat);
        assert(is_digit(d[d.len() - 1]));
        assert(a * 10 + 9 < p * 10) by (nonlinear_arith)
            requires
                a < p,
        ;
    }
}

proof fn lemma_pow10_small(k: nat)
    requires
        k <= 6,
    ensures
        1 <= pow10(k) <= 1_000_000,
        k == 6 ==> pow10(k) == 1_000_000,
    decreases k,
{
    if k > 0 {
        lemma_pow10_small((k - 1) as nat);
    }
    reveal_with_fuel(pow10, 7);
}

proof fn lemma_digits_small(d: Seq<u8>)
    requires
        d.len() <= 6,
    ensures
        all_digits(d) ==> digits_value(d) < 1_000_000,
{
    if all_digits(d) {
        lemma_digits_bound(d);
        lemma_pow10_monotone(d.len(), 6);
        lemma_pow10_small(6);
    }
}

proof fn lemma_pow10_monotone(a: nat, b: nat)
    requires
        a <= b,
    ensures
        pow10(a) <= pow10(b),
    decreases b,
{
    if a < b {
        lemma_pow10_monotone(a, (b - 1) as nat);
    }
}

/// `10^(6 - k)`.
fn scale_for(k: usize) -> (s: u128)
    requires
        k <= 6,
    ensures
        s == pow10((6 - k) as nat),
        s <= 1_000_000,
{
    proof {
        reveal_with_fuel(pow10, 7);
    }
    if k == 0 {
        1_000_000
    } else if k == 1 {
        100_000
    } else if k == 2 {
        10_000
    } else if k == 3 {
        1_000
    } else if k == 4 {
        100
    } else if k == 5 {
        10
    } else {
        1
    }
}

/// `digits_value(d.take(k)) * 10^(6 - k)` for the first `k <= 6` digits.
fn fraction_of(f: &Vec<u8>, from: usize) -> (r: Option<u128>)
    requires
        from <= f@.len(),
    ensures
        r == (if all_digits(f@.skip(from as int)) {
            Some(fraction_units(f@.skip(from as int)) as u128)
        } else {
            None
        }),
{
    let ghost d = f@.skip(from as int);
    let len = f.len() - from;
    let k: usize = if len <= 6 { len } else { 6 };
    let head = digits_upto(f, from, from + k, 1_000_000);
    assert(f@.subrange(from as int, from + k) =~= d.take(k as int));
    let rest = digits_only(f, from + k, f.len());
    assert(f@.subrange(from + k, f@.len() as int) =~= d.skip(k as int));
    proof {
        assert(all_digits(d) <==> all_digits(d.take(k as int)) && all_digits(d.skip(k as int))) by {
            if all_digits(d.take(k as int)) && all_digits(d.skip(k as int)) {
                assert forall|j: int| 0 <= j < d.len() implies is_digit(#[trigger] d[j]) by {
                    if j < k {
                        assert(d.take(k as int)[j] == d[j]);
                    } else {
                        assert(d.skip(k as int)[j - k] == d[j]);
                    }
                }
            }
        }
        lemma_digits_small(d.take(k as int));
    }
    match (head, rest) {
        (Some(h), true) => {
            let scale = scale_for(k);
            assert(h * scale <= 1_000_000 * 1_000_000) by (nonlinear_arith)
                requires
                    h <= 1_000_000,
                    scale <= 1_000_000,
            ;
            Some(h * scale)
        },
        _ => None,
    }
}

/// Reads a cost field.
#[verifier::rlimit(40)]
fn read_cost(f: &Vec<u8>) -> (r: Option<u64>)
    ensures
        r == cost_field(f@),
{
    let from: usize = if f.len() > 0 && f[0] == 43 { 1 } else { 0 };
    let ghost d = unsigned_part(f@);
    assert(d =~= f@.skip(from as int));
    let dot = find_from(f.as_slice(), from, 46);
    proof {
        lemma_find_byte(d, 46);
    }
    let ghost i = find_byte(d, 46);
    let ghost whole = d.take(i as int);
    let ghost frac = if i < d.len() { d.skip((i + 1) as int) } else { Seq::<u8>::empty() };
    assert(f@.subrange(from as int, dot as int) =~= whole);
    let frac_len: usize = if dot < f.len() { f.len() - dot - 1 } else { 0 };
    if (dot - from) + frac_len == 0 {
        return None;
    }
    let w = match digits_upto(f, from, dot, u64::MAX as u128) {
        Some(v) => v,
        None => {
            proof {
                if all_digits(whole) {
                    assert(digits_value(whole) * 1_000_000 >= digits_value(whole)) by (nonlinear_arith);
                }
            }
            return None;
        },
    };
    if dot < f.len() && f.len() - dot - 1 > 6 {
        if !zeros_only(f, dot + 7, f.len()) {
            proof {
                let j = choose|j: int| dot + 7 <= j < f@.len() && f@[j] != 48;
                assert(frac[j - dot - 1] == f@[j]);
            }
            return None;
        }
        assert forall|j: int| 6 <= j < frac.len() implies #[trigger] frac[j] == 48 by {
            assert(frac[j] == f@[dot + 1 + j]);
        }
    }
    let fr: u128 = if dot < f.len() {
        assert(f@.skip(dot + 1) =~= frac);
        match fraction_of(f, dot + 1) {
            Some(v) => v,
            None => {
                return None;
            },
        }
    } else {
        assert(frac =~= Seq::<u8>::empty());
        assert(frac.take(0) =~= Seq::<u8>::empty());
        assert(fraction_units(frac) == 0) by {
            reveal_with_fuel(pow10, 7);
        }
        0
    };
    proof {
        let k: nat = if frac.len() <= 6 { frac.len() } else { 6 };
        let head = frac.take(k as int);
        assert forall|j: int| 0 <= j < head.len() implies is_digit(#[trigger] head[j]) by {
            assert(head[j] == frac[j]);
        }
        lemma_digits_small(head);
        lemma_pow10_small((6 - k) as nat);
        let hv = digits_value(head);
        let sc = pow10((6 - k) as nat);
        assert(hv * sc <= 1_000_000 * 1_000_000) by (nonlinear_arith)
            requires
                hv < 1_000_000,
                sc <= 1_000_000,
        ;
        assert(fr == fraction_units(frac));
        assert(w == digits_value(whole));
        assert(all_digits(whole));
        assert(all_digits(frac));
        assert(whole.len() + frac.len() > 0);
    }
    assert(w * 1_000_000 + fr <= u64::MAX as int * 1_000_000 + 1_000_000 * 1_000_000) by (nonlinear_arith)
        requires
            w <= u64::MAX,
            fr <= 1_000_000 * 1_000_000,
    ;
    let total: u128 = w * 1_000_000 + fr;
    if total > u64::MAX as u128 {
        None
    } else {
        Some(total as u64)
    }
}

/// `f` without one leading `+` or `-`.
pub open spec fn signless(f: Seq<u8>) -> Seq<u8> {
    if f.len() > 0 && (f[0] == 43 || f[0] == 45) {
        f.drop_first()
    } else {
        f
    }
}

/// Index of the first `e` or `E` in `b`, or `b.len()`.
pub open spec fn exponent_at(b: Seq<u8>) -> nat {
    let a = find_byte(b, 101);
    let c = find_byte(b, 69);
    if a <= c { a } else { c }
}

/// Digits with at most one `.` among them, at least one digit in all.
pub open spec fn decimal_syntax(m: Seq<u8>) -> bool {
    let i = find_byte(m, 46);
    let whole = m.take(i as int);
    let frac = if i < m.len() { m.skip((i + 1) as int) } else { Seq::<u8>::empty() };
    whole.len() + frac.len() > 0 && all_digits(whole) && all_digits(frac)
}

/// A written number: an optional sign, a decimal part, and an optional
/// exponent (`e` or `E`, an optional sign, digits).
pub open spec fn number_syntax(f: Seq<u8>) -> bool {
    let b = signless(f);
    let k = exponent_at(b);
    &&& decimal_syntax(b.take(k as int))
    &&& k < b.len() ==> {
        let e = signless(b.skip((k + 1) as int));
        e.len() > 0 && all_digits(e)
    }
}

proof fn lemma_find_byte_take(b: Seq<u8>, c: u8, t: int)
    requires
        0 <= t <= b.len(),
    ensures
        find_byte(b.take(t), c) == if find_byte(b, c) <= t { find_byte(b, c) } else { t as nat },
{
    lemma_find_byte(b, c);
    lemma_find_byte(b.take(t), c);
    let x = find_byte(b, c) as int;
    let y = find_byte(b.take(t), c) as int;
    if y < t {
        assert(b.take(t)[y] == b[y]);
    }
    if x < t {
        assert(b.take(t)[x] == b[x]);
    }
    if y < x && y < t {
        assert(b[y] != c);
    }
}

/// Whether `f[from..to]` has the form of a decimal part.
fn decimal_like(f: &Vec<u8>, from: usize, to: usize) -> (r: bool)
    requires
        from <= to <= f@.len(),
    ensures
        r == decimal_syntax(f@.subrange(from as int, to as int)),
{
    let ghost m = f@.subrange(from as int, to as int);
    let d0 = find_from(f.as_slice(), from, 46);
    let dot = if d0 <= to { d0 } else { to };
    proof {
        let b = f@.skip(from as int);
        assert(m =~= b.take(to - from));
        lemma_find_byte(b, 46);
        lemma_find_byte_take(b, 46, to - from);
    }
    let ghost i = find_byte(m, 46);
    assert(dot == from + i);
    assert(m.take(i as int) =~= f@.subrange(from as int, dot as int));
    let whole_ok = digits_only(f, from, dot);
    let frac_ok = if dot < to {
        assert(m.skip((i + 1) as int) =~= f@.subrange(dot + 1, to as int));
        digits_only(f, dot + 1, to)
    } else {
        assert(forall|j: int| 0 <= j < 0 ==> is_digit(#[trigger] Seq::<u8>::empty()[j]));
        true
    };
    let count = (dot - from) + (if dot < to { to - dot - 1 } else { 0 });
    count > 0 && whole_ok && frac_ok
}

/// Whether `f[from..]` is an optional sign followed by digits, at least one.
fn exponent_like(f: &Vec<u8>, from: usize) -> (r: bool)
    requires
        from <= f@.len(),
    ensures
        r == ({
            let e = signless(f@.skip(from as int));
            e.len() > 0 && all_digits(e)
        }),
{
    let s: usize = if from < f.len() && (f[from] == 43 || f[from] == 45) { from + 1 } else { from };
    let ghost e = signless(f@.skip(from as int));
    assert(e =~= f@.subrange(s as int, f@.len() as int));
    s < f.len() && digits_only(f, s, f.len())
}

/// Whether `f` is a written number.
fn number_like(f: &Vec<u8>) -> (r: bool)
    ensures
        r == number_syntax(f@),
{
    let from: usize = if f.len() > 0 && (f[0] == 43 || f[0] == 45) { 1 } else { 0 };
    let ghost b = signless(f@);
    assert(b =~= f@.skip(from as int));
    let e1 = find_from(f.as_slice(), from, 101);
    let e2 = find_from(f.as_slice(), from, 69);
    let k = if e1 <= e2 { e1 } else { e2 };
    proof {
        lemma_find_byte(b, 101);
        lemma_find_byte(b, 69);
    }
    assert(b.take((k - from) as int) =~= f@.subrange(from as int, k as int));
    if !decimal_like(f, from, k) {
        return false;
    }
    if k >= f.len() {
        return true;
    }
    assert(b.skip((k - from + 1) as int) =~= f@.skip(k + 1));
    exponent_like(f, k + 1)
}

/// What one line of a table gives.
#[derive(Debug, Clone, Copy, PartialEq, Eq)]
pub enum LineReading {
    /// Not a record: not three fields, or a node index that cannot be read.
    Skipped,
    /// An arc, with its cost or `None` where the cost field is not a number.
    Arc(usize, usize, Option<u64>),
    /// A number as cost that is not a whole count of millionths fitting in
    /// `u64` (negative, in exponent form, too precise or too large).
    Rejected,
}

/// One record line: three comma-separated fields, each read without white
/// space at its ends: two node indices (neither `usize::MAX`) and a cost.
pub open spec fn line_reading(line: Seq<u8>) -> LineReading {
    let parts = split_on(line, 44);
    if parts.len() != 3 {
        LineReading::Skipped
    } else {
        match (node_field(trimmed(parts[0])), node_field(trimmed(parts[1]))) {
            (Some(a), Some(b)) => if a == usize::MAX || b == usize::MAX {
                LineReading::Skipped
            } else {
                let c = trimmed(parts[2]);
                match cost_field(c) {
                    Some(v) => LineReading::Arc(a, b, Some(v)),
                    None => if number_syntax(c) {
                        LineReading::Rejected
                    } else {
                        LineReading::Arc(a, b, None)
                    },
                }
            },
            _ => LineReading::Skipped,
        }
    }
}

/// The arcs of the lines in order, or the index of the first rejected line.
pub open spec fn records(lines: Seq<Seq<u8>>) -> Result<Seq<(usize, usize, Option<u64>)>, nat>
    decreases lines.len(),
{
    if lines.len() == 0 {
        Ok(seq![])
    } else {
        match records(lines.drop_last()) {
            Err(k) => Err(k),
            Ok(es) => match line_reading(lines.last()) {
                LineReading::Skipped => Ok(es),
                LineReading::Arc(a, b, c) => Ok(es.push((a, b, c))),
                LineReading::Rejected => Err((lines.len() - 1) as nat),
            },
        }
    }
}

proof fn lemma_records_err_stays(lines: Seq<Seq<u8>>, t: int)
    requires
        0 <= t <= lines.len(),
        records(lines.take(t)) is Err,
    ensures
        records(lines) == records(lines.take(t)),
    decreases lines.len() - t,
{
    if t < lines.len() {
        assert(lines.take(t + 1).drop_last() =~= lines.take(t));
        lemma_records_err_stays(lines, t + 1);
    } else {
        assert(lines.take(t) =~= lines);
    }
}

/// The arcs a table text lists: the records of its lines after the first
/// (the header), or the index among those lines of the first rejected one.
pub open spec fn table_edges(text: Seq<u8>) -> Result<Seq<(usize, usize, Option<u64>)>, nat> {
    let lines = text_lines(text);
    if lines.len() == 0 {
        Ok(seq![])
    } else {
        records(lines.drop_first())
    }
}

/// Reads one record line.
fn read_record(line: &Vec<u8>) -> (r: LineReading)
    ensures
        r == line_reading(line@),
{
    let parts = split_bytes(line.as_slice(), 44);
    if parts.len() != 3 {
        return LineReading::Skipped;
    }
    assert(parts@[0]@ == split_on(line@, 44)[0]);
    assert(parts@[1]@ == split_on(line@, 44)[1]);
    assert(parts@[2]@ == split_on(line@, 44)[2]);
    let a = read_node(&trim(&parts[0]));
    let b = read_node(&trim(&parts[1]));
    match (a, b) {
        (Some(a), Some(b)) => {
            if a == usize::MAX || b == usize::MAX {
                LineReading::Skipped
            } else {
                let c = trim(&parts[2]);
                match read_cost(&c) {
                    Some(v) => LineReading::Arc(a, b, Some(v)),
                    None => if number_like(&c) {
                        LineReading::Rejected
                    } else {
                        LineReading::Arc(a, b, None)
                    },
                }
            }
        },
        _ => LineReading::Skipped,
    }
}

/// Why a table text was refused.
#[derive(Debug, Clone, Copy, PartialEq, Eq, Structural)]
pub enum TableError {
    /// The record at this position (from 1, among the lines after the
    /// header) has a cost that is a number but not a whole count of
    /// millionths fitting in `u64`.
    UnsupportedCost { record: usize },
}

/// The arcs listed by a cost table's text: the header line is skipped; each
/// later line `from,to,cost` gives an arc, its cost in millionths
/// (`UNITS_PER_COST` units per unit written), `None` where the cost field is
/// not a number; other lines are skipped. A cost that is a number the
/// library cannot hold exactly refuses the table (`UnsupportedCost`).
pub fn parse_cost_table(text: &[u8]) -> (r: Result<Vec<(usize, usize, Option<u64>)>, TableError>)
    ensures
        match table_edges(text@) {
            Ok(es) => r matches Ok(edges) && edges@ == es,
            Err(k) => r == Err::<Vec<(usize, usize, Option<u64>)>, TableError>(
                TableError::UnsupportedCost { record: (k + 1) as usize },
            ),
        },
        r matches Ok(edges) ==> forall|k: int| 0 <= k < edges@.len() ==> (#[trigger] edges@[k]).0 < usize::MAX
            && edges@[k].1 < usize::MAX,
{
    let lines = split_lines(text);
    let ghost all = byte_views(lines@);
    let mut edges: Vec<(usize, usize, Option<u64>)> = Vec::new();
    if lines.len() == 0 {
        return Ok(edges);
    }
    let ghost body = all.drop_first();
    let mut k: usize = 1;
    assert(body.take(0) =~= Seq::<Seq<u8>>::empty());
    while k < lines.len()
        invariant
            1 <= k <= lines@.len(),
            all == byte_views(lines@),
            all == text_lines(text@),
            body == all.drop_first(),
            records(body.take(k - 1)) == Ok::<Seq<(usize, usize, Option<u64>)>, nat>(edges@),
            forall|q: int| 0 <= q < edges@.len() ==> (#[trigger] edges@[q]).0 < usize::MAX && edges@[q].1 < usize::MAX,
        decreases lines.len() - k,
    {
        assert(body.take(k as int).drop_last() =~= body.take(k - 1));
        assert(body.take(k as int).last() == lines@[k as int]@);
        match read_record(&lines[k]) {
            LineReading::Arc(a, b, c) => {
                edges.push((a, b, c));
            },
            LineReading::Skipped => {},
            LineReading::Rejected => {
                proof {
                    let t = body.take(k as int);
                    assert(t.drop_last() =~= body.take(k - 1));
                    assert(line_reading(t.last()) == LineReading::Rejected);
                    assert(records(t) == Err::<Seq<(usize, usize, Option<u64>)>, nat>((k - 1) as nat));
                    lemma_records_err_stays(body, k as int);
                    assert(text_lines(text@) == all);
                    assert(table_edges(text@) == records(body));
                    assert(((k - 1) as nat + 1) as usize == k);
                }
                return Err(TableError::UnsupportedCost { record: k });
            },
        }
        k = k + 1;
    }
    assert(body.take(k - 1) =~= body);
    Ok(edges)
}

} // verus!
