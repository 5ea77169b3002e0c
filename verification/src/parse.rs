//! Reading text: the first occurrence of a character, splitting on a
//! separator as `str::split` does, unsigned decimal numbers as `u64::from_str`
//! reads them, and substring search.
use crate::text::{decimal, digit_char};
use vstd::prelude::*;
use vstd::string::StrSliceExecFns;

verus! {

/// Index of the first `c` in `s`, or -1 when `s` holds none.
pub open spec fn index_of(s: Seq<char>, c: char) -> int
    decreases s.len(),
{
    if s.len() == 0 {
        -1
    } else if s[0] == c {
        0
    } else {
        let k = index_of(s.drop_first(), c);
        if k < 0 {
            -1
        } else {
            k + 1
        }
    }
}

/// The pieces of `s` between the occurrences of `sep`, in order; as many as the
/// occurrences plus one (empty pieces included).
pub open spec fn split_on(s: Seq<char>, sep: char) -> Seq<Seq<char>>
    decreases s.len(),
{
    let i = index_of(s, sep);
    if i < 0 || i >= s.len() {
        seq![s]
    } else {
        seq![s.take(i)] + split_on(s.skip(i + 1), sep)
    }
}

/// `index_of` is the first position holding `c`.
pub proof fn lemma_index_of(s: Seq<char>, c: char, k: int)
    requires
        0 <= k <= s.len(),
        forall|j: int| 0 <= j < k ==> s[j] != c,
        k == s.len() || s[k] == c,
    ensures
        index_of(s, c) == (if k == s.len() { -1 } else { k }),
    decreases s.len(),
{
    if s.len() > 0 && s[0] != c {
        assert forall|j: int| 0 <= j < k - 1 implies s.drop_first()[j] != c by {
            assert(s[j + 1] != c);
        }
        lemma_index_of(s.drop_first(), c, k - 1);
    }
}

/// `split_on` gives at least one piece.
pub proof fn lemma_split_nonempty(s: Seq<char>, sep: char)
    ensures
        split_on(s, sep).len() >= 1,
{
}

/// The value of a string of decimal digits.
pub open spec fn digits_value(s: Seq<char>) -> int
    decreases s.len(),
{
    if s.len() == 0 {
        0
    } else {
        digits_value(s.drop_last()) * 10 + (s.last() as int - '0' as int)
    }
}

/// Every character of `s` is a decimal digit.
pub open spec fn all_digits(s: Seq<char>) -> bool {
    forall|i: int| 0 <= i < s.len() ==> '0' <= #[trigger] s[i] <= '9'
}

/// What `u64::from_str` gives for `s`: an optional leading `+` (not alone),
/// then one or more decimal digits whose value fits in 64 bits.
pub open spec fn parse_u64(s: Seq<char>) -> Option<u64> {
    let d = if s.len() > 1 && s[0] == '+' { s.drop_first() } else { s };
    if d.len() > 0 && all_digits(d) && digits_value(d) <= u64::MAX {
        Some(digits_value(d) as u64)
    } else {
        None
    }
}

/// Digit strings have non-negative values, at least those of their prefixes.
proof fn lemma_digits_value_grows(s: Seq<char>, k: int)
    requires
        all_digits(s),
        0 <= k <= s.len(),
    ensures
        0 <= digits_value(s.take(k)) <= digits_value(s),
    decreases s.len(),
{
    if s.len() > 0 {
        assert(all_digits(s.drop_last())) by {
            assert forall|i: int| 0 <= i < s.drop_last().len() implies '0' <= #[trigger] s.drop_last()[i] <= '9' by {
                assert(s.drop_last()[i] == s[i]);
            }
        }
        if k == s.len() {
            assert(s.take(k) =~= s);
            lemma_digits_value_grows(s.drop_last(), 0);
        } else {
            assert(s.take(k) =~= s.drop_last().take(k));
            lemma_digits_value_grows(s.drop_last(), k);
        }
        assert('0' <= s[s.len() - 1] <= '9');
    } else {
        assert(s.take(k) =~= s);
    }
}

/// Whether `needle` occurs in `hay`.
pub open spec fn contains_seq(hay: Seq<char>, needle: Seq<char>) -> bool {
    exists|i: int| 0 <= i && i + needle.len() <= hay.len() && #[trigger] hay.subrange(i, i + needle.len()) == needle
}

/// Index of the first `c` in `s` at or after `from` and before `to`, or `to`.
pub fn find_char(s: &str, from: usize, to: usize, c: char) -> (r: usize)
    requires
        from <= to <= s@.len(),
    ensures
        from <= r <= to,
        forall|j: int| from <= j < r ==> s@[j] != c,
        r < to ==> s@[r as int] == c,
        index_of(s@.subrange(from as int, to as int), c) == (if r == to { -1 } else { r - from }),
{
    let mut i = from;
    while i < to
        invariant
            from <= i <= to <= s@.len(),
            forall|j: int| from <= j < i ==> s@[j] != c,
        ensures
            from <= i <= to,
            forall|j: int| from <= j < i ==> s@[j] != c,
            i < to ==> s@[i as int] == c,
        decreases to - i,
    {
        if s.get_char(i) == c {
            break;
        }
        i = i + 1;
    }
    proof {
        let t = s@.subrange(from as int, to as int);
        assert forall|j: int| 0 <= j < i - from implies t[j] != c by {
            assert(t[j] == s@[from + j]);
        }
        lemma_index_of(t, c, i - from);
    }
    i
}

/// Whether the characters of `s` from `from` to `to` are those of `lit`.
pub fn slice_eq(s: &str, from: usize, to: usize, lit: &str) -> (r: bool)
    requires
        from <= to <= s@.len(),
    ensures
        r == (s@.subrange(from as int, to as int) == lit@),
{
    let n = lit.unicode_len();
    if to - from != n {
        return false;
    }
    let mut k: usize = 0;
    while k < n
        invariant
            n == lit@.len(),
            to - from == n,
            from <= to <= s@.len(),
            k <= n,
            forall|j: int| 0 <= j < k ==> s@[from + j] == lit@[j],
        decreases n - k,
    {
        if s.get_char(from + k) != lit.get_char(k) {
            proof {
                assert(s@.subrange(from as int, to as int)[k as int] != lit@[k as int]);
            }
            return false;
        }
        k = k + 1;
    }
    proof {
        assert(s@.subrange(from as int, to as int) =~= lit@);
    }
    true
}

/// One or more decimal digits whose value fits in 64 bits: their value.
pub open spec fn digits_u64(d: Seq<char>) -> Option<u64> {
    if d.len() > 0 && all_digits(d) && digits_value(d) <= u64::MAX {
        Some(digits_value(d) as u64)
    } else {
        None
    }
}

/// A digit string with a prefix worth more than `u64::MAX`, or with a
/// character that is no digit, does not fit.
proof fn lemma_digits_reject(d: Seq<char>, k: int)
    requires
        0 <= k < d.len(),
        !('0' <= d[k] <= '9') || (all_digits(d.take(k + 1)) && digits_value(d.take(k + 1)) > u64::MAX),
    ensures
        digits_u64(d) is None,
{
    if all_digits(d) {
        assert('0' <= d[k] <= '9');
        lemma_digits_value_grows(d, k + 1);
    }
}

/// Reads the digits of `s` from `from` to `to`.
fn digits_in(s: &str, from: usize, to: usize) -> (r: Option<u64>)
    requires
        from < to <= s@.len(),
    ensures
        r == digits_u64(s@.subrange(from as int, to as int)),
{
    let ghost d = s@.subrange(from as int, to as int);
    let mut i = from;
    let mut acc: u64 = 0;
    proof {
        assert(d.take(0) =~= Seq::<char>::empty());
    }
    while i < to
        invariant
            from <= i <= to <= s@.len(),
            d == s@.subrange(from as int, to as int),
            all_digits(d.take(i - from)),
            acc == digits_value(d.take(i - from)),
        decreases to - i,
    {
        let c = s.get_char(i);
        assert(d[i - from] == c);
        if c < '0' || c > '9' {
            proof {
                lemma_digits_reject(d, i - from);
            }
            return None;
        }
        let digit = (c as u32 - '0' as u32) as u64;
        proof {
            lemma_digit_step(d, i - from);
        }
        let limit = (u64::MAX - digit) / 10;
        if acc > limit {
            proof {
                assert(acc * 10 + digit > u64::MAX) by (nonlinear_arith)
                    requires
                        limit == (u64::MAX - digit) / 10,
                        acc > limit,
                        digit <= 9,
                ;
                lemma_digits_reject(d, i - from);
            }
            return None;
        }
        assert(acc * 10 + digit <= u64::MAX) by (nonlinear_arith)
            requires
                limit == (u64::MAX - digit) / 10,
                acc <= limit,
                digit <= 9,
        ;
        acc = acc * 10 + digit;
        i = i + 1;
    }
    proof {
        assert(d.take(i - from) =~= d);
    }
    Some(acc)
}

/// Reads the characters of `s` from `from` to `to` as `u64::from_str` does.
pub fn parse_u64_in(s: &str, from: usize, to: usize) -> (r: Option<u64>)
    requires
        from <= to <= s@.len(),
    ensures
        r == parse_u64(s@.subrange(from as int, to as int)),
{
    let ghost t = s@.subrange(from as int, to as int);
    let mut start = from;
    if to - from > 1 && s.get_char(from) == '+' {
        start = from + 1;
    }
    proof {
        if t.len() > 1 && t[0] == '+' {
            assert(s@.subrange(start as int, to as int) =~= t.drop_first());
        } else {
            assert(s@.subrange(start as int, to as int) =~= t);
        }
    }
    if start == to {
        return None;
    }
    digits_in(s, start, to)
}

/// One more digit: the prefix stays all digits and its value is ten times the
/// old one plus the digit.
proof fn lemma_digit_step(d: Seq<char>, k: int)
    requires
        0 <= k < d.len(),
        all_digits(d.take(k)),
        '0' <= d[k] <= '9',
    ensures
        all_digits(d.take(k + 1)),
        digits_value(d.take(k + 1)) == digits_value(d.take(k)) * 10 + (d[k] as int - '0' as int),
{
    let next = d.take(k + 1);
    assert(next.drop_last() =~= d.take(k));
    assert forall|j: int| 0 <= j < next.len() implies '0' <= #[trigger] next[j] <= '9' by {
        if j < k {
            assert(next[j] == d.take(k)[j]);
        }
    }
}

/// Whether `needle` occurs in `hay`.
pub fn contains_str(hay: &str, needle: &str) -> (r: bool)
    ensures
        r == contains_seq(hay@, needle@),
{
    let h = hay.unicode_len();
    let n = needle.unicode_len();
    if n > h {
        proof {
            assert(!contains_seq(hay@, needle@));
        }
        return false;
    }
    if n == 0 {
        proof {
            assert(hay@.subrange(0, 0 + needle@.len() as int) =~= needle@);
        }
        return true;
    }
    let mut i: usize = 0;
    while i <= h - n
        invariant
            h == hay@.len(),
            n == needle@.len(),
            n <= h,
            1 <= n,
            i <= h - n + 1,
            forall|j: int| 0 <= j < i ==> #[trigger] hay@.subrange(j, j + n) != needle@,
        decreases h - n + 1 - i,
    {
        if slice_eq(hay, i, i + n, needle) {
            return true;
        }
        i = i + 1;
    }
    proof {
        assert forall|j: int| 0 <= j && j + needle@.len() <= hay@.len() implies #[trigger] hay@.subrange(j, j + needle@.len()) != needle@ by {
            assert(j < i);
        }
    }
    false
}

} // verus!

verus! {

/// The level and time after the entry `piece` of a saved state. A piece with
/// exactly one `=` is a key and a value: the key `level` sets the level to the
/// value, and the key `time` sets the time when the value reads as a `u64`.
/// Anything else leaves both as they were.
pub open spec fn apply_entry(level: Seq<char>, time: u64, piece: Seq<char>) -> (Seq<char>, u64) {
    let parts = split_on(piece, '=');
    if parts.len() == 2 && parts[0] == "level"@ {
        (parts[1], time)
    } else if parts.len() == 2 && parts[0] == "time"@ && parse_u64(parts[1]) is Some {
        (level, parse_u64(parts[1])->0)
    } else {
        (level, time)
    }
}

/// The level and time after the entries `pieces`, in order.
pub open spec fn apply_entries(level: Seq<char>, time: u64, pieces: Seq<Seq<char>>) -> (Seq<char>, u64)
    decreases pieces.len(),
{
    if pieces.len() == 0 {
        (level, time)
    } else {
        let (l, t) = apply_entry(level, time, pieces[0]);
        apply_entries(l, t, pieces.drop_first())
    }
}

/// The level and time after reading the saved state `text`: its entries are
/// separated by `;`.
pub open spec fn read_state_spec(level: Seq<char>, time: u64, text: Seq<char>) -> (Seq<char>, u64) {
    apply_entries(level, time, split_on(text, ';'))
}

/// Splitting at the first separator: the piece before it, then the pieces of
/// the rest.
proof fn lemma_split_at(s: Seq<char>, sep: char, from: int, end: int)
    requires
        0 <= from <= end <= s.len(),
        index_of(s.subrange(from, s.len() as int), sep) == (if end == s.len() { -1 } else { end - from }),
    ensures
        end == s.len() ==> split_on(s.subrange(from, s.len() as int), sep) == seq![s.subrange(from, end)],
        end < s.len() ==> split_on(s.subrange(from, s.len() as int), sep) == seq![s.subrange(from, end)]
            + split_on(s.subrange(end + 1, s.len() as int), sep),
{
    let t = s.subrange(from, s.len() as int);
    if end < s.len() {
        assert(t.take(end - from) =~= s.subrange(from, end));
        assert(t.skip(end - from + 1) =~= s.subrange(end + 1, s.len() as int));
    } else {
        assert(t =~= s.subrange(from, end));
    }
}

/// Applies the entry of `text` from `from` to `to`.
fn apply_piece(text: &str, from: usize, to: usize, level: String, time: u64) -> (r: (String, u64))
    requires
        from <= to <= text@.len(),
    ensures
        (r.0@, r.1) == apply_entry(level@, time, text@.subrange(from as int, to as int)),
{
    let ghost p = text@.subrange(from as int, to as int);
    let j = find_char(text, from, to, '=');
    if j == to {
        return (level, time);
    }
    let k = find_char(text, j + 1, to, '=');
    let ghost rest = text@.subrange(j + 1, to as int);
    proof {
        assert(p.take(j - from) =~= text@.subrange(from as int, j as int));
        assert(p.skip(j - from + 1) =~= rest);
        assert(split_on(p, '=') == seq![text@.subrange(from as int, j as int)] + split_on(rest, '='));
        if k < to {
            lemma_split_nonempty(rest.skip(k - j), '=');
            assert(split_on(rest, '=') == seq![rest.take(k - j - 1)] + split_on(rest.skip(k - j), '='));
            assert(split_on(p, '=').len() >= 3);
        } else {
            assert(split_on(rest, '=') == seq![rest]);
        }
    }
    if k != to {
        return (level, time);
    }
    proof {
        assert(split_on(p, '=') =~= seq![text@.subrange(from as int, j as int), rest]);
    }
    if slice_eq(text, from, j, "level") {
        return (String::from_str(text.substring_char(j + 1, to)), time);
    }
    if slice_eq(text, from, j, "time") {
        match parse_u64_in(text, j + 1, to) {
            Some(t) => {
                return (level, t);
            },
            None => {},
        }
    }
    (level, time)
}

/// Reads the saved state `text` over `level` and `time`.
pub fn read_state(text: &str, level: String, time: u64) -> (r: (String, u64))
    ensures
        (r.0@, r.1) == read_state_spec(level@, time, text@),
{
    let n = text.unicode_len();
    let mut start: usize = 0;
    let mut cur_level = level;
    let mut cur_time = time;
    let ghost goal = read_state_spec(level@, time, text@);
    proof {
        assert(text@.subrange(0, text@.len() as int) =~= text@);
    }
    loop
        invariant
            start <= n,
            n == text@.len(),
            goal == read_state_spec(level@, time, text@),
            apply_entries(cur_level@, cur_time, split_on(text@.subrange(start as int, n as int), ';')) == goal,
        decreases n - start,
    {
        let end = find_char(text, start, n, ';');
        proof {
            lemma_split_at(text@, ';', start as int, end as int);
        }
        let ghost rest = split_on(text@.subrange(start as int, n as int), ';');
        let ghost level0 = cur_level@;
        let ghost time0 = cur_time;
        let (l, t) = apply_piece(text, start, end, cur_level, cur_time);
        cur_level = l;
        cur_time = t;
        assert(apply_entries(level0, time0, rest) == apply_entries(cur_level@, cur_time, rest.drop_first()));
        if end == n {
            proof {
                assert(rest.drop_first() =~= Seq::<Seq<char>>::empty());
                assert(apply_entries(cur_level@, cur_time, rest.drop_first()) == (cur_level@, cur_time));
            }
            return (cur_level, cur_time);
        }
        proof {
            assert(rest.drop_first() =~= split_on(text@.subrange(end + 1, n as int), ';'));
        }
        start = end + 1;
    }
}

/// The decimal text of `n` is digits whose value is `n`.
proof fn lemma_decimal_digits(n: nat)
    ensures
        decimal(n).len() > 0,
        all_digits(decimal(n)),
        digits_value(decimal(n)) == n,
    decreases n,
{
    if n < 10 {
        assert(digit_char(n) as int - '0' as int == n);
        assert(decimal(n).drop_last() =~= Seq::<char>::empty());
        assert(digits_value(decimal(n).drop_last()) == 0);
        assert(decimal(n).last() == digit_char(n));
    } else {
        lemma_decimal_digits(n / 10);
        let d = decimal(n);
        assert(d.drop_last() =~= decimal(n / 10));
        let r = (n % 10) as nat;
        assert(digit_char(r) as int - '0' as int == r);
        assert(d.last() == digit_char(r));
        assert(digits_value(d) == digits_value(decimal(n / 10)) * 10 + r);
        assert(n == (n / 10) * 10 + r);
        assert forall|i: int| 0 <= i < d.len() implies '0' <= #[trigger] d[i] <= '9' by {
            if i < d.len() - 1 {
                assert(d[i] == decimal(n / 10)[i]);
            }
        }
    }
}

/// A number written in decimal reads back as itself: `u64::from_str` of the
/// text of `n` gives `n`.
pub proof fn law_decimal_reads_back(n: u64)
    ensures
        parse_u64(decimal(n as nat)) == Some(n),
{
    lemma_decimal_digits(n as nat);
}

/// A string without `sep` splits into itself alone.
proof fn lemma_split_whole(s: Seq<char>, sep: char)
    requires
        forall|i: int| 0 <= i < s.len() ==> s[i] != sep,
    ensures
        split_on(s, sep) == seq![s],
{
    lemma_index_of(s, sep, s.len() as int);
}

/// A string made of `a`, one `sep` and `b`, where `a` holds no `sep`, splits
/// into `a` and the pieces of `b`.
proof fn lemma_split_first(a: Seq<char>, b: Seq<char>, sep: char)
    requires
        forall|i: int| 0 <= i < a.len() ==> a[i] != sep,
    ensures
        split_on(a + seq![sep] + b, sep) == seq![a] + split_on(b, sep),
{
    let s = a + seq![sep] + b;
    assert forall|j: int| 0 <= j < a.len() implies s[j] != sep by {
        assert(s[j] == a[j]);
    }
    lemma_index_of(s, sep, a.len() as int);
    assert(s.take(a.len() as int) =~= a);
    assert(s.skip(a.len() as int + 1) =~= b);
}

/// A number that `u64::from_str` reads holds neither `=` nor `;`.
proof fn lemma_number_chars(v: Seq<char>)
    requires
        parse_u64(v) is Some,
    ensures
        forall|i: int| 0 <= i < v.len() ==> v[i] != '=' && v[i] != ';',
{
    let d = if v.len() > 1 && v[0] == '+' { v.drop_first() } else { v };
    assert forall|i: int| 0 <= i < v.len() implies v[i] != '=' && v[i] != ';' by {
        if v.len() > 1 && v[0] == '+' {
            if i > 0 {
                assert(v[i] == d[i - 1]);
                assert('0' <= d[i - 1] <= '9');
            }
        } else {
            assert('0' <= d[i] <= '9');
        }
    }
}

/// The entry `key=v`, with `v` free of `=`, splits into the key and `v`.
proof fn lemma_entry_parts(key: Seq<char>, v: Seq<char>)
    requires
        forall|i: int| 0 <= i < key.len() ==> key[i] != '=',
        forall|i: int| 0 <= i < v.len() ==> v[i] != '=',
    ensures
        split_on(key + seq!['='] + v, '=') == seq![key, v],
{
    lemma_split_first(key, v, '=');
    lemma_split_whole(v, '=');
    assert(seq![key] + seq![v] =~= seq![key, v]);
}

/// A saved state of the single entry `time=v`, where `v` reads as a `u64`,
/// sets the time to exactly that number (zero included), whatever it was, and
/// keeps the level.
pub proof fn law_time_entry_sets_time(level: Seq<char>, time: u64, v: Seq<char>)
    requires
        parse_u64(v) is Some,
    ensures
        read_state_spec(level, time, "time="@ + v) == (level, parse_u64(v)->0),
{
    reveal_strlit("time=");
    reveal_strlit("time");
    reveal_strlit("level");
    lemma_number_chars(v);
    let text = "time="@ + v;
    assert(text =~= "time"@ + seq!['='] + v);
    lemma_entry_parts("time"@, v);
    assert forall|i: int| 0 <= i < text.len() implies text[i] != ';' by {
        if i >= 5 {
            assert(text[i] == v[i - 5]);
        }
    }
    lemma_split_whole(text, ';');
    assert(seq![text].drop_first() =~= Seq::<Seq<char>>::empty());
    assert("time"@ != "level"@) by {
        assert("time"@.len() != "level"@.len());
    }
    assert(apply_entry(level, time, text) == (level, parse_u64(v)->0));
    assert(apply_entries(level, parse_u64(v)->0, Seq::<Seq<char>>::empty()) == (level, parse_u64(v)->0));
    assert(apply_entries(level, time, seq![text]) == (level, parse_u64(v)->0));
}

/// A saved state of the single entry `level=v`, where `v` holds neither `=`
/// nor `;`, sets the level to `v`, whatever it was, and keeps the time.
pub proof fn law_level_entry_sets_level(level: Seq<char>, time: u64, v: Seq<char>)
    requires
        forall|i: int| 0 <= i < v.len() ==> v[i] != '=' && v[i] != ';',
    ensures
        read_state_spec(level, time, "level="@ + v) == (v, time),
{
    reveal_strlit("level=");
    reveal_strlit("level");
    let text = "level="@ + v;
    assert(text =~= "level"@ + seq!['='] + v);
    lemma_entry_parts("level"@, v);
    assert forall|i: int| 0 <= i < text.len() implies text[i] != ';' by {
        if i >= 6 {
            assert(text[i] == v[i - 6]);
        }
    }
    lemma_split_whole(text, ';');
    assert(seq![text].drop_first() =~= Seq::<Seq<char>>::empty());
    assert(apply_entry(level, time, text) == (v, time));
    assert(apply_entries(v, time, Seq::<Seq<char>>::empty()) == (v, time));
    assert(apply_entries(level, time, seq![text]) == (v, time));
}

/// The state text `level=<level>;time=<t>` reads back as that level and time,
/// whatever the session held before, for every level free of `=` and `;` and
/// every time `t`, zero included.
pub proof fn law_state_reads_back(level0: Seq<char>, time0: u64, level: Seq<char>, t: u64)
    requires
        forall|i: int| 0 <= i < level.len() ==> level[i] != '=' && level[i] != ';',
    ensures
        read_state_spec(level0, time0, "level="@ + level + ";"@ + "time="@ + decimal(t as nat)) == (level, t),
{
    reveal_strlit("level=");
    reveal_strlit("level");
    reveal_strlit("time=");
    reveal_strlit("time");
    reveal_strlit(";");
    law_decimal_reads_back(t);
    let d = decimal(t as nat);
    lemma_number_chars(d);
    let p1 = "level="@ + level;
    let p2 = "time="@ + d;
    let text = "level="@ + level + ";"@ + "time="@ + d;
    assert(text =~= p1 + seq![';'] + p2);
    assert forall|i: int| 0 <= i < p1.len() implies p1[i] != ';' by {
        if i >= 6 {
            assert(p1[i] == level[i - 6]);
        }
    }
    assert forall|i: int| 0 <= i < p2.len() implies p2[i] != ';' by {
        if i >= 5 {
            assert(p2[i] == d[i - 5]);
        }
    }
    lemma_split_first(p1, p2, ';');
    lemma_split_whole(p2, ';');
    let pieces = split_on(text, ';');
    assert(pieces =~= seq![p1, p2]);
    assert(p1 =~= "level"@ + seq!['='] + level);
    assert(p2 =~= "time"@ + seq!['='] + d);
    lemma_entry_parts("level"@, level);
    lemma_entry_parts("time"@, d);
    assert("time"@ != "level"@) by {
        assert("time"@.len() != "level"@.len());
    }
    assert(apply_entry(level0, time0, p1) == (level, time0));
    assert(apply_entry(level, time0, p2) == (level, t));
    assert(pieces.drop_first() =~= seq![p2]);
    assert(seq![p2].drop_first() =~= Seq::<Seq<char>>::empty());
    assert(apply_entries(level, t, Seq::<Seq<char>>::empty()) == (level, t));
    assert(apply_entries(level, time0, seq![p2]) == (level, t));
}

} // verus!
