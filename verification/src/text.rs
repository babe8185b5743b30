//! Byte-level text helpers: splitting on a separator byte and unsigned
//! decimal / hex parsing with the same acceptance rules as std's `parse`.

use vstd::prelude::*;
use vstd::string::StringSliceAdditionalSpecFns;
use vstd::utf8::encode_utf8;

verus! {

/// `s` split at every occurrence of `sep` (n separators give n + 1 pieces).
pub open spec fn split_spec(s: Seq<u8>, sep: u8) -> Seq<Seq<u8>>
    decreases s.len(),
{
    if s.len() == 0 {
        seq![Seq::empty()]
    } else {
        let p = split_spec(s.drop_last(), sep);
        if s.last() == sep {
            p.push(Seq::empty())
        } else {
            p.update(p.len() - 1, p.last().push(s.last()))
        }
    }
}

pub proof fn lemma_split_nonempty(s: Seq<u8>, sep: u8)
    ensures
        split_spec(s, sep).len() >= 1,
    decreases s.len(),
{
    if s.len() > 0 {
        lemma_split_nonempty(s.drop_last(), sep);
    }
}

/// Split a byte string at every `sep` byte.
pub fn split_bytes(s: &[u8], sep: u8) -> (parts: Vec<Vec<u8>>)
    ensures
        parts@.map_values(|p: Vec<u8>| p@) == split_spec(s@, sep),
{
    let mut parts: Vec<Vec<u8>> = Vec::new();
    parts.push(Vec::new());
    let mut i: usize = 0;
    proof {
        assert(s@.take(0) =~= Seq::<u8>::empty());
        assert(parts@.map_values(|p: Vec<u8>| p@) =~= split_spec(s@.take(0), sep));
    }
    while i < s.len()
        invariant
            i <= s@.len(),
            parts@.len() >= 1,
            parts@.map_values(|p: Vec<u8>| p@) == split_spec(s@.take(i as int), sep),
        decreases s@.len() - i,
    {
        proof {
            assert(s@.take(i as int + 1).drop_last() =~= s@.take(i as int));
            assert(s@.take(i as int + 1).last() == s@[i as int]);
        }
        let ghost before = parts@.map_values(|p: Vec<u8>| p@);
        if s[i] == sep {
            parts.push(Vec::new());
            proof {
                assert(parts@.map_values(|p: Vec<u8>| p@) =~= before.push(Seq::empty()));
            }
        } else {
            let n = parts.len();
            let mut last = parts.pop().unwrap();
            last.push(s[i]);
            parts.push(last);
            proof {
                assert(parts@.map_values(|p: Vec<u8>| p@) =~= before.update(before.len() - 1, before.last().push(s@[i as int])));
            }
        }
        i = i + 1;
    }
    proof {
        assert(s@.take(i as int) =~= s@);
    }
    parts
}

pub open spec fn is_digit(b: u8) -> bool {
    48 <= b <= 57
}

pub open spec fn all_digits(s: Seq<u8>) -> bool {
    forall|i: int| 0 <= i < s.len() ==> is_digit(#[trigger] s[i])
}

/// Value of a run of decimal digits.
pub open spec fn digits_value(s: Seq<u8>) -> nat
    decreases s.len(),
{
    if s.len() == 0 {
        0
    } else {
        digits_value(s.drop_last()) * 10 + (s.last() - 48) as nat
    }
}

/// An unsigned decimal as std's integer `parse` reads it: an optional `+`
/// followed by at least one digit.
pub open spec fn decimal_digits(s: Seq<u8>) -> Option<Seq<u8>> {
    let body = if s.len() > 0 && s[0] == 43 {
        s.drop_first()
    } else {
        s
    };
    if body.len() >= 1 && all_digits(body) {
        Some(body)
    } else {
        None
    }
}

/// The value `parse` gives an unsigned type whose maximum is `max`.
pub open spec fn parse_unsigned(s: Seq<u8>, max: nat) -> Option<nat> {
    match decimal_digits(s) {
        Some(d) => if digits_value(d) <= max {
            Some(digits_value(d))
        } else {
            None
        },
        None => None,
    }
}

proof fn lemma_digits_value_grows(s: Seq<u8>, n: int)
    requires
        0 <= n <= s.len(),
        all_digits(s),
    ensures
        digits_value(s.take(n)) <= digits_value(s),
    decreases s.len() - n,
{
    if n < s.len() {
        lemma_digits_value_grows(s, n + 1);
        assert(s.take(n + 1).drop_last() =~= s.take(n));
    } else {
        assert(s.take(n) =~= s);
    }
}

/// Parse an unsigned decimal no larger than `max`.
pub fn parse_unsigned_bytes(s: &[u8], max: u64) -> (r: Option<u64>)
    ensures
        r == match parse_unsigned(s@, max as nat) {
            Some(v) => Some(v as u64),
            None => None::<u64>,
        },
{
    let start: usize = if s.len() > 0 && s[0] == 43 {
        1
    } else {
        0
    };
    let ghost body = if s@.len() > 0 && s@[0] == 43 {
        s@.drop_first()
    } else {
        s@
    };
    proof {
        assert(body =~= s@.skip(start as int));
    }
    if start >= s.len() {
        return None;
    }
    let mut value: u64 = 0;
    let mut i: usize = start;
    while i < s.len()
        invariant
            start <= i <= s@.len(),
            body == s@.skip(start as int),
            body == (if s@.len() > 0 && s@[0] == 43 {
                s@.drop_first()
            } else {
                s@
            }),
            all_digits(body.take(i - start)),
            value == digits_value(body.take(i - start)),
            value <= max,
        decreases s@.len() - i,
    {
        proof {
            assert(body.take(i - start + 1).drop_last() =~= body.take(i - start));
            assert(body[i - start] == s@[i as int]);
        }
        let b = s[i];
        if b < 48 || b > 57 {
            proof {
                assert(!all_digits(body)) by {
                    assert(!is_digit(body[i - start]));
                }
            }
            return None;
        }
        let d = (b - 48) as u64;
        let next: u128 = value as u128 * 10 + d as u128;
        if next > max as u128 {
            proof {
                assert(all_digits(body.take(i - start + 1))) by {
                    assert forall|q: int| 0 <= q < body.take(i - start + 1).len() implies is_digit(
                        #[trigger] body.take(i - start + 1)[q],
                    ) by {
                        if q < i - start {
                            assert(body.take(i - start + 1)[q] == body.take(i - start)[q]);
                        }
                    }
                }
                if all_digits(body) {
                    lemma_digits_value_grows(body, i - start + 1);
                }
            }
            return None;
        }
        value = next as u64;
        proof {
            assert forall|q: int| 0 <= q < body.take(i - start + 1).len() implies is_digit(
                #[trigger] body.take(i - start + 1)[q],
            ) by {
                if q < i - start {
                    assert(body.take(i - start + 1)[q] == body.take(i - start)[q]);
                }
            }
        }
        i = i + 1;
    }
    proof {
        assert(body.take(i - start) =~= body);
    }
    Some(value)
}

/// Index of the first `sep` byte.
pub open spec fn find_byte(s: Seq<u8>, sep: u8) -> Option<int>
    decreases s.len(),
{
    if s.len() == 0 {
        None
    } else if s[0] == sep {
        Some(0)
    } else {
        match find_byte(s.drop_first(), sep) {
            Some(i) => Some(i + 1),
            None => None,
        }
    }
}

pub proof fn lemma_find_byte(s: Seq<u8>, sep: u8)
    ensures
        find_byte(s, sep) matches Some(i) ==> 0 <= i < s.len() && s[i] == sep && forall|k: int|
            0 <= k < i ==> s[k] != sep,
        find_byte(s, sep) is None ==> forall|k: int| 0 <= k < s.len() ==> s[k] != sep,
    decreases s.len(),
{
    if s.len() > 0 {
        lemma_find_byte(s.drop_first(), sep);
        assert forall|k: int| 1 <= k < s.len() implies s[k] == s.drop_first()[k - 1] by {}
    }
}

/// Text before and after the first `sep`, when there is one.
pub open spec fn split_once_spec(s: Seq<u8>, sep: u8) -> Option<(Seq<u8>, Seq<u8>)> {
    match find_byte(s, sep) {
        Some(i) => Some((s.take(i), s.skip(i + 1))),
        None => None,
    }
}

pub fn split_once_bytes(s: &[u8], sep: u8) -> (r: Option<(Vec<u8>, Vec<u8>)>)
    ensures
        match split_once_spec(s@, sep) {
            Some((a, b)) => r matches Some((x, y)) && x@ == a && y@ == b,
            None => r is None,
        },
{
    proof {
        lemma_find_byte(s@, sep);
    }
    let mut i: usize = 0;
    while i < s.len()
        invariant
            i <= s@.len(),
            forall|k: int| 0 <= k < i ==> s@[k] != sep,
        decreases s@.len() - i,
    {
        if s[i] == sep {
            proof {
                lemma_find_byte(s@, sep);
                if let Some(j) = find_byte(s@, sep) {
                    if j > i {
                        assert(s@[i as int] != sep);
                    }
                }
                assert(find_byte(s@, sep) == Some(i as int));
            }
            let ghost expected = split_once_spec(s@, sep);
            let mut a: Vec<u8> = Vec::new();
            let mut q: usize = 0;
            while q < i
                invariant
                    q <= i < s@.len(),
                    expected == Some((s@.take(i as int), s@.skip(i as int + 1))),
                    a@ == s@.take(q as int),
                decreases i - q,
            {
                proof {
                    assert(s@.take(q as int + 1) =~= s@.take(q as int).push(s@[q as int]));
                }
                a.push(s[q]);
                q = q + 1;
            }
            let mut b: Vec<u8> = Vec::new();
            let mut q2: usize = i + 1;
            proof {
                assert(s@.skip(i as int + 1).take(0) =~= Seq::<u8>::empty());
            }
            while q2 < s.len()
                invariant
                    i + 1 <= q2 <= s@.len(),
                    a@ == s@.take(i as int),
                    expected == Some((s@.take(i as int), s@.skip(i as int + 1))),
                    b@ == s@.skip(i as int + 1).take(q2 - i - 1),
                decreases s@.len() - q2,
            {
                proof {
                    assert(s@.skip(i as int + 1).take(q2 - i) =~= s@.skip(i as int + 1).take(q2 - i - 1).push(s@[q2 as int]));
                }
                b.push(s[q2]);
                q2 = q2 + 1;
            }
            proof {
                assert(s@.skip(i as int + 1).take(q2 - i - 1) =~= s@.skip(i as int + 1));
            }
            return Some((a, b));
        }
        i = i + 1;
    }
    proof {
        lemma_find_byte(s@, sep);
        if let Some(j) = find_byte(s@, sep) {
            assert(s@[j] != sep);
        }
    }
    None
}

/// Two bytes exactly equal to `word`.
pub fn bytes_equal(a: &[u8], word: &[u8]) -> (r: bool)
    ensures
        r == (a@ == word@),
{
    if a.len() != word.len() {
        return false;
    }
    let mut i: usize = 0;
    while i < a.len()
        invariant
            i <= a@.len(),
            a@.len() == word@.len(),
            forall|k: int| 0 <= k < i ==> a@[k] == word@[k],
        decreases a@.len() - i,
    {
        if a[i] != word[i] {
            return false;
        }
        i = i + 1;
    }
    proof {
        assert(a@ =~= word@);
    }
    true
}

/// Value of one hex digit (either case).
pub open spec fn hex_value(b: u8) -> Option<nat> {
    if 48 <= b <= 57 {
        Some((b - 48) as nat)
    } else if 97 <= b <= 102 {
        Some((b - 87) as nat)
    } else if 65 <= b <= 70 {
        Some((b - 55) as nat)
    } else {
        None
    }
}

/// A two-byte chunk read as a base-16 `u8`: two hex digits, or `+` and one digit.
pub open spec fn hex_pair(b0: u8, b1: u8) -> Option<u8> {
    if b0 == 43 {
        match hex_value(b1) {
            Some(v) => Some(v as u8),
            None => None,
        }
    } else {
        match (hex_value(b0), hex_value(b1)) {
            (Some(h), Some(l)) => Some((h * 16 + l) as u8),
            _ => None,
        }
    }
}

fn hex_digit_value(b: u8) -> (r: Option<u8>)
    ensures
        r == match hex_value(b) {
            Some(v) => Some(v as u8),
            None => None::<u8>,
        },
{
    if 48 <= b && b <= 57 {
        Some(b - 48)
    } else if 97 <= b && b <= 102 {
        Some(b - 87)
    } else if 65 <= b && b <= 70 {
        Some(b - 55)
    } else {
        None
    }
}

pub fn parse_hex_pair(b0: u8, b1: u8) -> (r: Option<u8>)
    ensures
        r == hex_pair(b0, b1),
{
    if b0 == 43 {
        hex_digit_value(b1)
    } else {
        match (hex_digit_value(b0), hex_digit_value(b1)) {
            (Some(h), Some(l)) => Some(h * 16 + l),
            _ => None,
        }
    }
}

/// Index of the first element of `ids` equal to `id`.
pub open spec fn first_index<A>(ids: Seq<A>, id: A) -> Option<int>
    decreases ids.len(),
{
    if ids.len() == 0 {
        None
    } else if ids[0] == id {
        Some(0)
    } else {
        match first_index(ids.drop_first(), id) {
            Some(i) => Some(i + 1),
            None => None,
        }
    }
}

pub proof fn lemma_first_index<A>(ids: Seq<A>, id: A)
    ensures
        first_index(ids, id) matches Some(i) ==> 0 <= i < ids.len() && ids[i] == id && forall|k: int|
            0 <= k < i ==> ids[k] != id,
        first_index(ids, id) is None ==> forall|k: int| 0 <= k < ids.len() ==> ids[k] != id,
    decreases ids.len(),
{
    if ids.len() > 0 {
        lemma_first_index(ids.drop_first(), id);
        assert forall|k: int| 1 <= k < ids.len() implies ids[k] == ids.drop_first()[k - 1] by {}
    }
}

/// The character of decimal digit `d`.
pub open spec fn digit_char(d: nat) -> char {
    (48 + d) as char
}

/// Decimal text of `n`, without leading zeros.
pub open spec fn decimal_chars(n: nat) -> Seq<char>
    decreases n,
{
    if n < 10 {
        seq![digit_char(n)]
    } else {
        decimal_chars(n / 10).push(digit_char(n % 10))
    }
}

/// Decimal bytes of `n`, without leading zeros.
pub open spec fn decimal_bytes(n: nat) -> Seq<u8>
    decreases n,
{
    if n < 10 {
        seq![(48 + n) as u8]
    } else {
        decimal_bytes(n / 10).push((48 + n % 10) as u8)
    }
}

/// The bytes of ASCII text, one per character.
pub open spec fn ascii_bytes(cs: Seq<char>) -> Seq<u8> {
    cs.map_values(|c: char| c as u8)
}

/// The UTF-8 bytes of ASCII text are its characters' codes.
pub proof fn lemma_ascii_encoding(cs: Seq<char>)
    requires
        vstd::utf8::is_ascii_chars(cs),
    ensures
        encode_utf8(cs) == ascii_bytes(cs),
{
    vstd::utf8::is_ascii_chars_encode_utf8(cs);
    assert(encode_utf8(cs) =~= ascii_bytes(cs));
}

pub proof fn lemma_decimal(n: nat)
    ensures
        vstd::utf8::is_ascii_chars(decimal_chars(n)),
        ascii_bytes(decimal_chars(n)) == decimal_bytes(n),
        decimal_bytes(n).len() >= 1,
        all_digits(decimal_bytes(n)),
        digits_value(decimal_bytes(n)) == n,
        decimal_digits(decimal_bytes(n)) == Some(decimal_bytes(n)),
    decreases n,
{
    if n >= 10 {
        lemma_decimal(n / 10);
        let p = decimal_bytes(n / 10);
        assert(decimal_bytes(n).drop_last() =~= p);
        assert(decimal_bytes(n).last() == (48 + n % 10) as u8);
        assert(digits_value(decimal_bytes(n)) == digits_value(p) * 10 + n % 10);
        assert((n / 10) * 10 + n % 10 == n);
        assert(ascii_bytes(decimal_chars(n)) =~= decimal_bytes(n)) by {
            assert(ascii_bytes(decimal_chars(n / 10)) =~= p);
        }
    } else {
        assert(ascii_bytes(decimal_chars(n)) =~= decimal_bytes(n));
        let b = decimal_bytes(n);
        assert(b.drop_last() =~= Seq::<u8>::empty());
        assert(digits_value(b.drop_last()) == 0);
        assert(b.last() == (48 + n) as u8);
        assert(digits_value(b) == digits_value(b.drop_last()) * 10 + (b.last() - 48) as nat);
    }
    let b = decimal_bytes(n);
    assert(is_digit(b[0])) by {
        if n >= 10 {
            lemma_decimal(n / 10);
            assert(b[0] == decimal_bytes(n / 10)[0]);
        }
    }
}

/// Parsing decimal text gives back its number, under any bound it meets.
pub proof fn lemma_parse_decimal(n: nat, max: nat)
    requires
        n <= max,
    ensures
        parse_unsigned(decimal_bytes(n), max) == Some(n),
{
    lemma_decimal(n);
}

fn digit_str(d: u64) -> (s: &'static str)
    requires
        d < 10,
    ensures
        s@ == seq![digit_char(d as nat)],
{
    if d == 0 {
        proof {
            reveal_strlit("0");
        }
        "0"
    } else if d == 1 {
        proof {
            reveal_strlit("1");
        }
        "1"
    } else if d == 2 {
        proof {
            reveal_strlit("2");
        }
        "2"
    } else if d == 3 {
        proof {
            reveal_strlit("3");
        }
        "3"
    } else if d == 4 {
        proof {
            reveal_strlit("4");
        }
        "4"
    } else if d == 5 {
        proof {
            reveal_strlit("5");
        }
        "5"
    } else if d == 6 {
        proof {
            reveal_strlit("6");
        }
        "6"
    } else if d == 7 {
        proof {
            reveal_strlit("7");
        }
        "7"
    } else if d == 8 {
        proof {
            reveal_strlit("8");
        }
        "8"
    } else {
        proof {
            reveal_strlit("9");
        }
        "9"
    }
}

/// Decimal text of `n`, as the `frames_dropped`, `boundary`, `i` and `j`
/// records carry it: it reads back as `n` under any bound `n` meets.
pub fn decimal_text(n: u64) -> (t: String)
    ensures
        t@ == decimal_chars(n as nat),
        encode_utf8(t@) == decimal_bytes(n as nat),
        forall|max: nat| n <= max ==> #[trigger] parse_unsigned(encode_utf8(t@), max) == Some(n as nat),
    decreases n,
{
    let mut t = if n >= 10 {
        decimal_text(n / 10)
    } else {
        String::new()
    };
    t.append(digit_str(n % 10));
    proof {
        assert(t@ =~= decimal_chars(n as nat));
        lemma_decimal(n as nat);
        lemma_ascii_encoding(t@);
        assert forall|max: nat| n <= max implies #[trigger] parse_unsigned(encode_utf8(t@), max) == Some(n as nat) by {
            lemma_parse_decimal(n as nat, max);
        }
    }
    t
}

/// `s` holds no `sep` byte.
pub open spec fn free_of(s: Seq<u8>, sep: u8) -> bool {
    forall|i: int| 0 <= i < s.len() ==> s[i] != sep
}

/// Pieces joined with one `sep` byte between neighbours.
pub open spec fn joined(parts: Seq<Seq<u8>>, sep: u8) -> Seq<u8>
    decreases parts.len(),
{
    if parts.len() == 0 {
        Seq::empty()
    } else if parts.len() == 1 {
        parts[0]
    } else {
        joined(parts.drop_last(), sep).push(sep) + parts.last()
    }
}

proof fn lemma_split_append(p: Seq<u8>, t: Seq<u8>, sep: u8)
    requires
        free_of(t, sep),
    ensures
        split_spec(p + t, sep) == split_spec(p, sep).update(
            split_spec(p, sep).len() - 1,
            split_spec(p, sep).last() + t,
        ),
    decreases t.len(),
{
    lemma_split_nonempty(p, sep);
    let sp = split_spec(p, sep);
    if t.len() == 0 {
        assert(p + t =~= p);
        assert(sp.last() + t =~= sp.last());
        assert(sp.update(sp.len() - 1, sp.last() + t) =~= sp);
    } else {
        lemma_split_append(p, t.drop_last(), sep);
        assert((p + t).drop_last() =~= p + t.drop_last());
        assert((p + t).last() == t.last());
        assert(t.last() != sep);
        let s1 = split_spec(p + t.drop_last(), sep);
        assert(s1.last() == sp.last() + t.drop_last());
        assert(s1.last().push(t.last()) =~= sp.last() + t);
        assert(s1.update(s1.len() - 1, s1.last().push(t.last())) =~= sp.update(sp.len() - 1, sp.last() + t));
    }
}

/// Splitting joined pieces gives the pieces back, when none holds the separator.
pub proof fn lemma_split_joined(parts: Seq<Seq<u8>>, sep: u8)
    requires
        parts.len() >= 1,
        forall|i: int| 0 <= i < parts.len() ==> free_of(#[trigger] parts[i], sep),
    ensures
        split_spec(joined(parts, sep), sep) == parts,
    decreases parts.len(),
{
    if parts.len() == 1 {
        lemma_split_append(Seq::empty(), parts[0], sep);
        assert(Seq::<u8>::empty() + parts[0] =~= parts[0]);
        assert(seq![Seq::<u8>::empty()].update(0, Seq::<u8>::empty() + parts[0]) =~= parts);
    } else {
        let init = parts.drop_last();
        assert forall|i: int| 0 <= i < init.len() implies free_of(#[trigger] init[i], sep) by {
            assert(init[i] == parts[i]);
        }
        lemma_split_joined(init, sep);
        let j = joined(init, sep);
        assert(j.push(sep).drop_last() =~= j);
        assert(split_spec(j.push(sep), sep) == split_spec(j, sep).push(Seq::empty()));
        lemma_split_append(j.push(sep), parts.last(), sep);
        assert(Seq::<u8>::empty() + parts.last() =~= parts.last());
        assert(init.push(Seq::empty()).update(init.len() as int, Seq::<u8>::empty() + parts.last()) =~= parts);
    }
}

/// Splitting `a`, `sep`, `b` once at the first `sep` gives `a` and `b`, when `a` holds no `sep`.
pub proof fn lemma_split_once_at(a: Seq<u8>, b: Seq<u8>, sep: u8)
    requires
        free_of(a, sep),
    ensures
        split_once_spec(a.push(sep) + b, sep) == Some((a, b)),
{
    let s = a.push(sep) + b;
    lemma_find_byte(s, sep);
    assert(s[a.len() as int] == sep);
    match find_byte(s, sep) {
        Some(i) => {
            if i < a.len() {
                assert(s[i] == a[i]);
            }
            assert(i == a.len());
        },
        None => {},
    }
    assert(s.take(a.len() as int) =~= a);
    assert(s.skip(a.len() as int + 1) =~= b);
}

/// The bytes of ASCII text distribute over concatenation.
pub proof fn lemma_ascii_concat(a: Seq<char>, b: Seq<char>)
    ensures
        ascii_bytes(a + b) == ascii_bytes(a) + ascii_bytes(b),
        vstd::utf8::is_ascii_chars(a) && vstd::utf8::is_ascii_chars(b) ==> vstd::utf8::is_ascii_chars(a + b),
{
    assert(ascii_bytes(a + b) =~= ascii_bytes(a) + ascii_bytes(b));
    if vstd::utf8::is_ascii_chars(a) && vstd::utf8::is_ascii_chars(b) {
        assert forall|i: int| 0 <= i < (a + b).len() implies '\0' <= #[trigger] (a + b)[i] <= '\u{7f}' by {
            if i < a.len() {
                assert((a + b)[i] == a[i]);
            } else {
                assert((a + b)[i] == b[i - a.len()]);
            }
        }
    }
}

/// Decimal text of `n` for values past `u64`, such as a span of `i64`s.
pub fn wide_decimal_text(n: u128) -> (t: String)
    ensures
        t@ == decimal_chars(n as nat),
    decreases n,
{
    let mut t = if n >= 10 {
        wide_decimal_text(n / 10)
    } else {
        String::new()
    };
    t.append(digit_str((n % 10) as u64));
    proof {
        assert(t@ =~= decimal_chars(n as nat));
    }
    t
}

/// Decimal text of a signed integer: `-` before the digits of a negative one.
pub open spec fn signed_decimal_chars(i: int) -> Seq<char> {
    if i < 0 {
        seq!['-'] + decimal_chars((-i) as nat)
    } else {
        decimal_chars(i as nat)
    }
}

/// Decimal text of `v`, as `Display` for signed integers writes it.
pub fn signed_decimal_text(v: i128) -> (t: String)
    requires
        v > i128::MIN,
    ensures
        t@ == signed_decimal_chars(v as int),
{
    if v < 0 {
        let magnitude: u128 = (0i128 - v) as u128;
        let digits = wide_decimal_text(magnitude);
        let mut t = String::from_str("-");
        proof {
            reveal_strlit("-");
        }
        t.append(digits.as_str());
        t
    } else {
        wide_decimal_text(v as u128)
    }
}

/// What `Debug` for `str` writes of `s`: the text in double quotes, with
/// quotes, backslashes and non-printable characters escaped.
pub uninterp spec fn debug_str(s: Seq<char>) -> Seq<char>;

/// `format!("{s:?}")`, std's `Debug` for `str`. Claimed: the result is
/// `debug_str` of the text, a function of the text alone.
#[verifier::external_body]
pub(crate) fn debug_quoted(s: &str) -> (r: String)
    ensures
        r@ == debug_str(s@),
{
    format!("{s:?}")
}

} // verus!
